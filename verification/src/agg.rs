//! Namespace-scoped identity graph. Nodes are groups keyed by (namespace, name);
//! edges are @refs inside `members`. A group's `members` list is the raw authored
//! value -- unresolved @refs stay as they are until `resolve()` walks them.
//!
//! Nothing here talks to k8s. The graph is a pure data structure fed by the
//! watcher and read by the HTTP debug endpoints.

use crate::groups::{
    acyclic, closes, closes_along, edge, law_remove_keeps_acyclic, law_upsert_keeps_acyclic,
    law_walk_finds_all_and_only, leads, lemma_table, path, reach, ref_name, refers, table, unique,
    Groups, GroupsView, KeyView,
};
use crate::order::{
    ascending, in_order, lemma_lex_antisymmetric, lemma_lex_total, lemma_lex_transitive,
    lemma_same_values, lex, octets_in_order, sorted, sorted_once, Ordered,
};
use crate::text::{copy_of, same, split, split_commas, texts, tidied, tidy};
use vstd::prelude::*;
use vstd::utf8::{encode_utf8, encode_utf8_decode_utf8};

verus! {

pub type Ns = String;

pub type GroupName = String;

pub type Member = String;

/// Key = (namespace, group name). @refs are namespace-local -- a member `"@foo"`
/// in ns `bar` resolves to key `(bar, foo)`.
pub type Key = (Ns, GroupName);

/// The spec of an IdentityGroup resource.
#[derive(Debug)]
pub struct IdentityGroupSpec {
    pub members: Vec<String>,
}

/// Reason a change was rejected. Kept as an enum so callers can log distinct
/// outcomes.
#[derive(Debug, PartialEq, Eq)]
pub enum UpsertError {
    /// Adding this group with these members would close a cycle.
    Cycle { names: Vec<GroupName> },
}

#[derive(Debug)]
pub struct Graph {
    groups: Groups,
}

impl View for Graph {
    type V = GroupsView;

    closed spec fn view(&self) -> GroupsView {
        self.groups@
    }
}

impl Default for Graph {
    fn default() -> (r: Self)
        ensures
            r@ == Map::<KeyView, Seq<Seq<char>>>::empty(),
            acyclic(r@),
    {
        let r = Graph { groups: Groups::default() };
        proof {
            lemma_empty_is_acyclic();
        }
        r
    }
}

proof fn lemma_empty_is_acyclic()
    ensures
        acyclic(Map::<KeyView, Seq<Seq<char>>>::empty()),
{
    let g = Map::<KeyView, Seq<Seq<char>>>::empty();
    assert forall|ns: Seq<char>, p: Seq<Seq<char>>|
        p.len() >= 2 && #[trigger] path(g, ns, p) implies p[0] != p.last() by {
        assert(edge(g, ns, p[0], p[1]));
    }
}

/// A row of the dump: `namespace/name` and the members.
pub type Row = (String, Vec<Member>);

impl Ordered for (String, Vec<String>) {
    open spec fn before(&self, other: &Self) -> bool {
        lex(encode_utf8(self.0@), encode_utf8(other.0@))
    }

    proof fn lemma_total(a: &Self, b: &Self) {
        lemma_lex_total(encode_utf8(a.0@), encode_utf8(b.0@));
    }

    proof fn lemma_transitive(a: &Self, b: &Self, c: &Self) {
        lemma_lex_transitive(encode_utf8(a.0@), encode_utf8(b.0@), encode_utf8(c.0@));
    }

    fn is_before(&self, other: &Self) -> (r: bool) {
        octets_in_order(self.0.as_str().as_bytes(), other.0.as_str().as_bytes())
    }
}

/// How a key is written.
pub open spec fn key_text(k: KeyView) -> Seq<char> {
    k.0.push('/') + k.1
}

/// The row of a group.
pub open spec fn is_row(row: Row, k: KeyView, members: Seq<Seq<char>>) -> bool {
    row.0@ == key_text(k) && texts(row.1@) == members
}

/// Some row has the text that the key is written as.
pub open spec fn has_row(rows: Seq<Row>, k: KeyView) -> bool {
    exists|i: int| 0 <= i < rows.len() && (#[trigger] rows[i]).0@ == key_text(k)
}

/// In order, and no text twice.
pub open spec fn rows_once(rows: Seq<Row>) -> bool {
    forall|i: int, j: int|
        #![trigger rows[i], rows[j]]
        0 <= i < j < rows.len() ==> rows[i].before(&rows[j]) && rows[i].0@ != rows[j].0@
}

/// The row stands for some group.
pub open spec fn row_of(g: GroupsView, row: Row) -> bool {
    exists|k: KeyView| #[trigger] g.dom().contains(k) && is_row(row, k, g[k])
}

/// Of rows with one text the first.
fn rows_by_text(all: Vec<Row>, Ghost(g): Ghost<GroupsView>) -> (r: Vec<Row>)
    requires
        in_order(all@),
        forall|k: KeyView| #[trigger] g.dom().contains(k) ==> has_row(all@, k),
        forall|i: int| 0 <= i < all@.len() ==> row_of(g, #[trigger] all@[i]),
    ensures
        rows_once(r@),
        forall|k: KeyView| #[trigger] g.dom().contains(k) ==> has_row(r@, k),
        forall|i: int| 0 <= i < r@.len() ==> row_of(g, #[trigger] r@[i]),
{
    let mut out: Vec<Row> = Vec::new();
    let mut i: usize = 0;
    while i < all.len()
        invariant
            i <= all@.len(),
            in_order(all@),
            forall|j: int| 0 <= j < all@.len() ==> row_of(g, #[trigger] all@[j]),
            rows_once(out@),
            out@.len() > 0 ==> i > 0 && out@.last().0@ == all@[i - 1].0@,
            i > 0 ==> out@.len() > 0,
            forall|j: int| 0 <= j < out@.len() ==> row_of(g, #[trigger] out@[j]),
            forall|j: int|
                0 <= j < i ==> exists|x: int|
                    0 <= x < out@.len() && (#[trigger] out@[x]).0@ == (#[trigger] all@[j]).0@,
        decreases all@.len() - i,
    {
        let ghost before = out@;
        let n = out.len();
        let again = n > 0 && same(&out[n - 1].0, &all[i].0);
        if !again {
            let row = (all[i].0.clone(), copy_of(&all[i].1));
            proof {
                let whole = all@[i as int];
                let k = choose|k: KeyView| #[trigger] g.dom().contains(k) && is_row(whole, k, g[k]);
                assert(is_row(row, k, g[k]));
                assert forall|x: int| 0 <= x < before.len() implies (#[trigger] before[x]).before(
                    &row,
                ) && before[x].0@ != row.0@ by {
                    let last = before.len() - 1;
                    assert(all@[i - 1].before(&all@[i as int]));
                    if x < last {
                        assert(before[x].before(&before[last]));
                        assert(before[x].0@ != before[last].0@);
                        lemma_lex_transitive(
                            encode_utf8(before[x].0@),
                            encode_utf8(before[last].0@),
                            encode_utf8(row.0@),
                        );
                        if before[x].0@ == row.0@ {
                            lemma_lex_antisymmetric(
                                encode_utf8(before[x].0@),
                                encode_utf8(before[last].0@),
                            );
                            encode_utf8_decode_utf8(before[x].0@);
                            encode_utf8_decode_utf8(before[last].0@);
                        }
                    }
                }
            }
            out.push(row);
        }
        proof {
            assert forall|j: int| 0 <= j < i + 1 implies exists|x: int|
                0 <= x < out@.len() && (#[trigger] out@[x]).0@ == (#[trigger] all@[j]).0@ by {
                if j < i {
                    let x = choose|x: int|
                        0 <= x < before.len() && (#[trigger] before[x]).0@ == all@[j].0@;
                    assert(out@[x] == before[x]);
                } else {
                    assert(out@[out@.len() - 1].0@ == all@[j].0@);
                }
            }
        }
        i += 1;
    }
    proof {
        assert forall|k: KeyView| #[trigger] g.dom().contains(k) implies has_row(out@, k) by {
            assert(has_row(all@, k));
            let j = choose|j: int| 0 <= j < all@.len() && (#[trigger] all@[j]).0@ == key_text(k);
            let x = choose|x: int| 0 <= x < out@.len() && (#[trigger] out@[x]).0@ == all@[j].0@;
            assert(out@[x].0@ == key_text(k));
        }
    }
    out
}

impl Graph {
    /// Upsert a group's raw members. Rejects if it would close a cycle in this
    /// namespace (self-ref counts). Everything else -- unknown @refs, empty
    /// members, mixed shapes -- is accepted; resolution deals with the mess later.
    pub fn upsert(&mut self, key: Key, members: Vec<Member>) -> (r: Result<(), UpsertError>)
        ensures
            r is Err <==> closes(old(self)@, key.0@, key.1@, texts(members@)),
            match r {
                Ok(_) => final(self)@ == old(self)@.insert((key.0@, key.1@), texts(members@)),
                Err(UpsertError::Cycle { names }) => final(self)@ == old(self)@ && closes_along(
                    old(self)@,
                    key.0@,
                    key.1@,
                    texts(members@),
                    texts(names@),
                ),
            },
            acyclic(old(self)@) ==> acyclic(final(self)@),
    {
        let ghost before = self@;
        let (ns, name) = key;
        let found = self.groups.cycle_probe(&ns, &name, &members);
        if let Some(names) = found {
            proof {
                let mv = texts(members@);
                let p = texts(names@);
                let i = choose|i: int|
                    {
                        &&& 0 <= i < mv.len()
                        &&& ref_name(#[trigger] mv[i]) == Some(p[1])
                        &&& forall|j: int|
                            0 <= j < i ==> (ref_name(#[trigger] mv[j]) matches Some(t)
                                ==> !reach(before, key.0@, t, key.1@))
                    };
                assert(refers(mv, p[1]));
                let tail = p.skip(1);
                assert(tail[0] == p[1] && tail.last() == p.last());
                assert(reach(before, key.0@, p[1], key.1@));
            }
            return Err(UpsertError::Cycle { names });
        }
        proof {
            if acyclic(before) {
                law_upsert_keeps_acyclic(before, ns@, name@, texts(members@));
            }
        }
        self.groups.insert(ns, name, members);
        Ok(())
    }

    pub fn remove(&mut self, key: &Key)
        ensures
            final(self)@ == old(self)@.remove((key.0@, key.1@)),
            acyclic(old(self)@) ==> acyclic(final(self)@),
    {
        proof {
            if acyclic(self@) {
                law_remove_keeps_acyclic(self@, (key.0@, key.1@));
            }
        }
        self.groups.remove(&key.0, &key.1);
    }

    /// Wipe on relist. The watcher emits Init before replaying, so callers use this
    /// to drop stale entries before InitApply repopulates.
    pub fn reset(&mut self)
        ensures
            final(self)@ == Map::<KeyView, Seq<Seq<char>>>::empty(),
            acyclic(final(self)@),
    {
        proof {
            lemma_empty_is_acyclic();
        }
        self.groups.clear();
    }

    pub fn len(&self) -> (r: usize)
        ensures
            self@.dom().finite(),
            r == self@.dom().len(),
    {
        self.groups.len()
    }

    /// The members of a group.
    pub fn get(&self, key: &Key) -> (r: Option<&Vec<Member>>)
        ensures
            match r {
                Some(members) => self@.dom().contains((key.0@, key.1@)) && self@[(key.0@, key.1@)]
                    == texts(members@),
                None => !self@.dom().contains((key.0@, key.1@)),
            },
    {
        self.groups.get(&key.0, &key.1)
    }

    /// Full dump, sorted for readability. Debug endpoint only. Keys that are written
    /// alike, which takes a slash in a name, have one row between them: that of one
    /// of their groups.
    pub fn dump(&self) -> (r: Vec<Row>)
        ensures
            rows_once(r@),
            forall|k: KeyView| #[trigger] self@.dom().contains(k) ==> has_row(r@, k),
            forall|i: int| 0 <= i < r@.len() ==> row_of(self@, #[trigger] r@[i]),
    {
        let es = self.groups.entries();
        let mut rows: Vec<Row> = Vec::new();
        let mut i: usize = 0;
        proof {
            lemma_table(es@);
        }
        while i < es.len()
            invariant
                i <= es@.len(),
                self@ == table(es@),
                unique(es@),
                rows@.len() == i,
                forall|j: int|
                    0 <= j < i ==> is_row(
                        #[trigger] rows@[j],
                        es@[j].key(),
                        texts(es@[j].members@),
                    ),
            decreases es@.len() - i,
        {
            let mut text = es[i].ns.clone();
            text.push('/');
            text.append(&es[i].name);
            assert(text@ =~= key_text(es@[i as int].key()));
            rows.push((text, copy_of(&es[i].members)));
            i += 1;
        }
        let ghost given = rows@;
        let all = sorted(rows);
        proof {
            lemma_same_values(given, all@);
            lemma_table(es@);
            assert forall|k: KeyView| #[trigger] self@.dom().contains(k) implies has_row(
                all@,
                k,
            ) by {
                let j = choose|j: int| 0 <= j < es@.len() && (#[trigger] es@[j]).key() == k;
                assert(is_row(given[j], k, texts(es@[j].members@)));
                assert(given.contains(given[j]));
                assert(all@.contains(given[j]));
                let x = choose|x: int| 0 <= x < all@.len() && all@[x] == given[j];
                assert(all@[x].0@ == key_text(k));
            }
            assert forall|x: int| 0 <= x < all@.len() implies row_of(self@, #[trigger] all@[x]) by {
                assert(all@.contains(all@[x]));
                assert(given.contains(all@[x]));
                let j = choose|j: int| 0 <= j < given.len() && given[j] == all@[x];
                assert(is_row(given[j], es@[j].key(), texts(es@[j].members@)));
                assert(table(es@)[es@[j].key()] == texts(es@[j].members@));
                assert(self@.dom().contains(es@[j].key()));
            }
        }
        rows_by_text(all, Ghost(self@))
    }

    /// Walk from `entry` in `ns`, unioning concrete (non-@) members. Cycle-safe at
    /// walk time. Unknown @refs contribute nothing. In order, each once.
    pub fn resolve(&self, ns: &str, entry: &[Member]) -> (r: Vec<Member>)
        ensures
            ascending(r@),
            forall|m: Seq<char>|
                #[trigger] texts(r@).contains(m) <==> ref_name(m) is None && leads(
                    self@,
                    ns@,
                    texts(entry@),
                    m,
                ),
    {
        let met = self.groups.walk(ns, entry, false);
        let r = sorted_once(met);
        proof {
            assert forall|m: Seq<char>| #[trigger] texts(r@).contains(m) <==> ref_name(m) is None
                && leads(self@, ns@, texts(entry@), m) by {
                law_walk_finds_all_and_only(self@, ns@, texts(entry@), false, m);
                assert(texts(met@).contains(m) <==> texts(r@).contains(m));
            }
        }
        r
    }
}

// --- the watcher --------------------------------------------------------------

/// What the watcher reports.
#[derive(Debug)]
pub enum Event {
    /// A group appeared or changed.
    Apply(Key, IdentityGroupSpec),
    /// A group is gone.
    Delete(Key),
    /// A relist starts: what follows replaces everything.
    Init,
    /// The relist is complete.
    InitDone,
}

/// What became of an event, for the log.
#[derive(Debug, PartialEq, Eq)]
pub enum Outcome {
    Upserted,
    Rejected(UpsertError),
    Deleted,
    Wiped,
    /// How many groups there are.
    Synced(usize),
}

/// A resource without a namespace stands in the unnamed one.
pub fn key(namespace: Option<String>, name: String) -> (r: Key)
    ensures
        r.0@ == match namespace {
            Some(ns) => ns@,
            None => Seq::<char>::empty(),
        },
        r.1@ == name@,
{
    match namespace {
        Some(ns) => (ns, name),
        None => {
            let none = String::new();
            assert(none@ =~= seq![]);
            (none, name)
        },
    }
}

impl Graph {
    /// Take in one event.
    pub fn handle(&mut self, event: Event) -> (r: Outcome)
        ensures
            acyclic(old(self)@) ==> acyclic(final(self)@),
            match event {
                Event::Apply(k, spec) => {
                    let members = texts(spec.members@);
                    if closes(old(self)@, k.0@, k.1@, members) {
                        &&& final(self)@ == old(self)@
                        &&& r matches Outcome::Rejected(UpsertError::Cycle { names })
                        &&& closes_along(old(self)@, k.0@, k.1@, members, texts(names@))
                    } else {
                        &&& final(self)@ == old(self)@.insert((k.0@, k.1@), members)
                        &&& r == Outcome::Upserted
                    }
                },
                Event::Delete(k) => final(self)@ == old(self)@.remove((k.0@, k.1@)) && r
                    == Outcome::Deleted,
                Event::Init => final(self)@ == Map::<KeyView, Seq<Seq<char>>>::empty() && r
                    == Outcome::Wiped,
                Event::InitDone => {
                    &&& final(self)@ == old(self)@
                    &&& r matches Outcome::Synced(n)
                    &&& n == old(self)@.dom().len()
                },
            },
    {
        match event {
            Event::Apply(k, spec) => match self.upsert(k, spec.members) {
                Ok(_) => Outcome::Upserted,
                Err(e) => Outcome::Rejected(e),
            },
            Event::Delete(k) => {
                self.remove(&k);
                Outcome::Deleted
            },
            Event::Init => {
                self.reset();
                Outcome::Wiped
            },
            Event::InitDone => Outcome::Synced(self.len()),
        }
    }

    /// Answer a resolve query: the entry that the text names, and what it
    /// resolves to.
    pub fn answer(&self, ns: &str, refs: &str) -> (r: (Vec<Member>, Vec<Member>))
        ensures
            texts(r.0@) == tidied(split_commas(refs@)),
            ascending(r.1@),
            forall|m: Seq<char>|
                #[trigger] texts(r.1@).contains(m) <==> ref_name(m) is None && leads(
                    self@,
                    ns@,
                    texts(r.0@),
                    m,
                ),
    {
        let entry = tidy(&split(refs));
        let resolved = self.resolve(ns, &entry);
        (entry, resolved)
    }
}

// --- laws ---------------------------------------------------------------------

/// A key is written as its namespace, a slash and its name, and keys whose namespaces have
/// no slash are never written alike.
pub proof fn law_keys_are_told_apart(a: KeyView, b: KeyView)
    ensures
        key_text(a) == a.0 + seq!['/'] + a.1,
        key_text(a) == key_text(b) && (forall|i: int| 0 <= i < a.0.len() ==> #[trigger] a.0[i]
            != '/') && (forall|i: int| 0 <= i < b.0.len() ==> #[trigger] b.0[i] != '/') ==> a == b,
{
    assert(key_text(a) =~= a.0 + seq!['/'] + a.1);
    let s = key_text(a);
    let t = key_text(b);
    if s == t && (forall|i: int| 0 <= i < a.0.len() ==> #[trigger] a.0[i] != '/') && (forall|i: int|
        0 <= i < b.0.len() ==> #[trigger] b.0[i] != '/') {
        let m = a.0.len() as int;
        let n = b.0.len() as int;
        assert(s[m] == '/' && t[n] == '/');
        if m < n {
            assert(t[m] == b.0[m]);
        } else if n < m {
            assert(s[n] == a.0[n]);
        }
        assert(a.0 =~= s.take(m));
        assert(b.0 =~= t.take(m));
        assert(a.1 =~= s.skip(m + 1));
        assert(b.1 =~= t.skip(m + 1));
    }
}

/// The rows of a dump are in the order of their texts, each once, and each shows a group
/// with its own members.
pub proof fn law_rows_show_groups(g: GroupsView, rows: Seq<Row>, i: int, j: int)
    requires
        rows_once(rows),
        forall|x: int| 0 <= x < rows.len() ==> row_of(g, #[trigger] rows[x]),
        0 <= i < j < rows.len(),
    ensures
        rows[i].0@ != rows[j].0@,
        lex(encode_utf8(rows[i].0@), encode_utf8(rows[j].0@)),
        exists|k: KeyView| #[trigger]
            g.dom().contains(k) && rows[i].0@ == k.0 + seq!['/'] + k.1 && texts(rows[i].1@) == g[k],
{
    let (a, b) = (rows[i], rows[j]);
    assert(a.before(&b));
    let k = choose|k: KeyView| #[trigger] g.dom().contains(k) && is_row(a, k, g[k]);
    law_keys_are_told_apart(k, k);
}

/// Every group has a row with the text of its key.
pub proof fn law_groups_have_rows(rows: Seq<Row>, k: KeyView)
    requires
        has_row(rows, k),
    ensures
        exists|i: int| 0 <= i < rows.len() && (#[trigger] rows[i]).0@ == k.0 + seq!['/'] + k.1,
{
    law_keys_are_told_apart(k, k);
    let i = choose|i: int| 0 <= i < rows.len() && (#[trigger] rows[i]).0@ == key_text(k);
    assert(rows[i].0@ == k.0 + seq!['/'] + k.1);
}

} // verus!
