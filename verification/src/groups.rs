//! Named groups of members, each in a namespace. A member is a source, or `@name`:
//! a reference to another group of the same namespace.

use crate::text::{chars_of, copy_of, same, string_of, texts};
use vstd::prelude::*;
use vstd::slice::slice_subrange;

verus! {

/// A namespace and a name.
pub type KeyView = (Seq<char>, Seq<char>);

/// The members of every group.
pub type GroupsView = Map<KeyView, Seq<Seq<char>>>;

/// The group that a member refers to.
pub open spec fn ref_name(m: Seq<char>) -> Option<Seq<char>> {
    if m.len() > 0 && m[0] == '@' {
        Some(m.skip(1))
    } else {
        None
    }
}

// --- walking ------------------------------------------------------------------

/// How many groups have not been seen.
pub open spec fn unseen(g: GroupsView, seen: Set<KeyView>) -> nat {
    g.dom().difference(seen).len()
}

pub proof fn lemma_unseen(g: GroupsView, seen: Set<KeyView>, k: KeyView)
    requires
        g.dom().finite(),
        g.dom().contains(k),
        !seen.contains(k),
    ensures
        unseen(g, seen.insert(k)) < unseen(g, seen),
{
    assert(g.dom().difference(seen.insert(k)) =~= g.dom().difference(seen).remove(k));
}

/// What is met on the way through `work`, first to last: a reference is replaced
/// by the members of its group the first time it is met, and dropped after that.
/// A reference to no group is kept as it is where `keep` says so.
pub open spec fn walk(
    g: GroupsView,
    ns: Seq<char>,
    work: Seq<Seq<char>>,
    seen: Set<KeyView>,
    keep: bool,
) -> Seq<Seq<char>>
    decreases unseen(g, seen), work.len(),
    when g.dom().finite()
{
    if work.len() == 0 {
        seq![]
    } else {
        let m = work[0];
        let rest = work.drop_first();
        match ref_name(m) {
            None => seq![m] + walk(g, ns, rest, seen, keep),
            Some(name) => if !g.dom().contains((ns, name)) {
                if keep {
                    seq![m] + walk(g, ns, rest, seen, keep)
                } else {
                    walk(g, ns, rest, seen, keep)
                }
            } else if seen.contains((ns, name)) {
                walk(g, ns, rest, seen, keep)
            } else {
                proof {
                    lemma_unseen(g, seen, (ns, name));
                }
                walk(g, ns, g[(ns, name)] + rest, seen.insert((ns, name)), keep)
            },
        }
    }
}

// --- reaching -----------------------------------------------------------------

/// Some member refers to the group `name`.
pub open spec fn refers(members: Seq<Seq<char>>, name: Seq<char>) -> bool {
    exists|i: int| 0 <= i < members.len() && ref_name(#[trigger] members[i]) == Some(name)
}

pub open spec fn edge(g: GroupsView, ns: Seq<char>, a: Seq<char>, b: Seq<char>) -> bool {
    g.dom().contains((ns, a)) && refers(g[(ns, a)], b)
}

/// Names, each of which refers to the next.
pub open spec fn path(g: GroupsView, ns: Seq<char>, p: Seq<Seq<char>>) -> bool {
    &&& p.len() > 0
    &&& forall|i: int, j: int|
        #![trigger p[i], p[j]]
        0 <= i && j == i + 1 && j < p.len() ==> edge(g, ns, p[i], p[j])
}

pub open spec fn reach(g: GroupsView, ns: Seq<char>, a: Seq<char>, b: Seq<char>) -> bool {
    exists|p: Seq<Seq<char>>| #[trigger] path(g, ns, p) && p[0] == a && p.last() == b
}

/// No group leads back to itself.
pub open spec fn acyclic(g: GroupsView) -> bool {
    forall|ns: Seq<char>, p: Seq<Seq<char>>|
        p.len() >= 2 && #[trigger] path(g, ns, p) ==> p[0] != p.last()
}

/// With these members, `name` would lead back to itself.
pub open spec fn closes(
    g: GroupsView,
    ns: Seq<char>,
    name: Seq<char>,
    members: Seq<Seq<char>>,
) -> bool {
    exists|t: Seq<char>| #[trigger] refers(members, t) && reach(g, ns, t, name)
}

/// `p` leads from `name` back to it, through the first member that does, and
/// passes no name twice on the way.
pub open spec fn closes_along(
    g: GroupsView,
    ns: Seq<char>,
    name: Seq<char>,
    members: Seq<Seq<char>>,
    p: Seq<Seq<char>>,
) -> bool {
    &&& p.len() >= 2
    &&& p[0] == name
    &&& p.last() == name
    &&& path(g, ns, p.skip(1))
    &&& p.skip(1).no_duplicates()
    &&& exists|i: int|
        {
            &&& 0 <= i < members.len()
            &&& ref_name(#[trigger] members[i]) == Some(p[1])
            &&& forall|j: int|
                0 <= j < i ==> (ref_name(#[trigger] members[j]) matches Some(t) ==> !reach(
                    g,
                    ns,
                    t,
                    name,
                ))
        }
}

/// One step in front of a path.
proof fn lemma_step(g: GroupsView, ns: Seq<char>, a: Seq<char>, p: Seq<Seq<char>>)
    requires
        path(g, ns, p),
        edge(g, ns, a, p[0]),
    ensures
        path(g, ns, seq![a] + p),
{
    let q = seq![a] + p;
    assert forall|i: int, j: int|
        #![trigger q[i], q[j]]
        0 <= i && j == i + 1 && j < q.len() implies edge(g, ns, q[i], q[j]) by {
        if i == 0 {
            assert(q[j] == p[0]);
        } else {
            assert(q[i] == p[i - 1]);
            assert(q[j] == p[j - 1]);
        }
    }
}

proof fn lemma_path_part(g: GroupsView, ns: Seq<char>, p: Seq<Seq<char>>, from: int, to: int)
    requires
        path(g, ns, p),
        0 <= from < to <= p.len(),
    ensures
        path(g, ns, p.subrange(from, to)),
{
    let q = p.subrange(from, to);
    assert forall|i: int, j: int|
        #![trigger q[i], q[j]]
        0 <= i && j == i + 1 && j < q.len() implies edge(g, ns, q[i], q[j]) by {
        assert(q[i] == p[from + i]);
        assert(q[j] == p[from + j]);
    }
}

/// A change that closes no cycle keeps a graph without cycles so.
pub proof fn law_upsert_keeps_acyclic(
    g: GroupsView,
    ns: Seq<char>,
    name: Seq<char>,
    members: Seq<Seq<char>>,
)
    requires
        acyclic(g),
        !closes(g, ns, name, members),
    ensures
        acyclic(g.insert((ns, name), members)),
{
    let h = g.insert((ns, name), members);
    assert forall|at: Seq<char>, p: Seq<Seq<char>>|
        p.len() >= 2 && #[trigger] path(h, at, p) implies p[0] != p.last() by {
        if p[0] == p.last() {
            if at != ns || forall|i: int| 0 <= i < p.len() - 1 ==> p[i] != name {
                assert forall|i: int, j: int|
                    #![trigger p[i], p[j]]
                    0 <= i && j == i + 1 && j < p.len() implies edge(g, at, p[i], p[j]) by {
                    assert(edge(h, at, p[i], p[j]));
                }
                assert(path(g, at, p));
            } else {
                lemma_cycle_through(g, h, ns, name, members, p);
            }
        }
    }
}

/// A stretch of a path in the changed graph that does not leave from the changed
/// group is a path in the old one.
proof fn lemma_old_stretch(
    g: GroupsView,
    ns: Seq<char>,
    name: Seq<char>,
    members: Seq<Seq<char>>,
    q: Seq<Seq<char>>,
)
    requires
        path(g.insert((ns, name), members), ns, q),
        forall|i: int| 0 <= i < q.len() - 1 ==> #[trigger] q[i] != name,
        q.last() == name,
        refers(members, q[0]),
    ensures
        closes(g, ns, name, members),
{
    let h = g.insert((ns, name), members);
    assert forall|i: int, j: int|
        #![trigger q[i], q[j]]
        0 <= i && j == i + 1 && j < q.len() implies edge(g, ns, q[i], q[j]) by {
        assert(edge(h, ns, q[i], q[j]));
        assert(q[i] != name);
    }
    assert(path(g, ns, q));
    assert(reach(g, ns, q[0], name));
}

/// A cycle that leaves from the changed group comes back to it over old edges.
proof fn lemma_cycle_through(
    g: GroupsView,
    h: GroupsView,
    ns: Seq<char>,
    name: Seq<char>,
    members: Seq<Seq<char>>,
    p: Seq<Seq<char>>,
)
    requires
        h == g.insert((ns, name), members),
        path(h, ns, p),
        p.len() >= 2,
        p[0] == p.last(),
        exists|i: int| 0 <= i < p.len() - 1 && p[i] == name,
    ensures
        closes(g, ns, name, members),
{
    let n = p.len() as int;
    let i = first_index(p, name, 0);
    lemma_first_index(p, name, 0);
    assert(edge(h, ns, p[i], p[i + 1]));
    assert(refers(members, p[i + 1]));
    let j = first_index(p, name, i + 1);
    lemma_first_index(p, name, i + 1);
    if j < n {
        let q = p.subrange(i + 1, j + 1);
        lemma_path_part(h, ns, p, i + 1, j + 1);
        assert forall|k: int| 0 <= k < q.len() - 1 implies #[trigger] q[k] != name by {
            assert(q[k] == p[i + 1 + k]);
        }
        lemma_old_stretch(g, ns, name, members, q);
    } else {
        assert(i > 0);
        let tail = p.subrange(i + 1, n);
        let head = p.subrange(1, i + 1);
        let q = tail + head;
        lemma_path_part(h, ns, p, i + 1, n);
        lemma_path_part(h, ns, p, 1, i + 1);
        assert forall|a: int, b: int|
            #![trigger q[a], q[b]]
            0 <= a && b == a + 1 && b < q.len() implies edge(h, ns, q[a], q[b]) by {
            if b < tail.len() {
                assert(q[a] == tail[a] && q[b] == tail[b]);
            } else if a >= tail.len() {
                assert(q[a] == head[a - tail.len()] && q[b] == head[b - tail.len()]);
            } else {
                assert(q[a] == p[n - 1] && q[b] == p[1]);
                assert(edge(h, ns, p[0], p[1]));
            }
        }
        assert forall|k: int| 0 <= k < q.len() - 1 implies #[trigger] q[k] != name by {
            if k < tail.len() {
                assert(q[k] == p[i + 1 + k]);
            } else {
                assert(q[k] == p[1 + k - tail.len()]);
            }
        }
        lemma_old_stretch(g, ns, name, members, q);
    }
}

/// The first place at or after `from` where `name` stands, or the end.
spec fn first_index(p: Seq<Seq<char>>, name: Seq<char>, from: int) -> int
    decreases p.len() - from,
{
    if from >= p.len() || p[from] == name {
        from
    } else {
        first_index(p, name, from + 1)
    }
}

proof fn lemma_first_index(p: Seq<Seq<char>>, name: Seq<char>, from: int)
    requires
        0 <= from <= p.len(),
    ensures
        from <= first_index(p, name, from) <= p.len(),
        forall|k: int| from <= k < first_index(p, name, from) ==> p[k] != name,
        first_index(p, name, from) < p.len() ==> p[first_index(p, name, from)] == name,
    decreases p.len() - from,
{
    if from < p.len() && p[from] != name {
        lemma_first_index(p, name, from + 1);
    }
}

/// Taking a group away opens cycles, and closes none.
pub proof fn law_remove_keeps_acyclic(g: GroupsView, k: KeyView)
    requires
        acyclic(g),
    ensures
        acyclic(g.remove(k)),
{
    let h = g.remove(k);
    assert forall|ns: Seq<char>, p: Seq<Seq<char>>|
        p.len() >= 2 && #[trigger] path(h, ns, p) implies p[0] != p.last() by {
        assert forall|i: int, j: int|
            #![trigger p[i], p[j]]
            0 <= i && j == i + 1 && j < p.len() implies edge(g, ns, p[i], p[j]) by {
            assert(edge(h, ns, p[i], p[j]));
        }
        assert(path(g, ns, p));
    }
}

/// Groups of one namespace say nothing about another.
pub proof fn law_namespaces_are_apart(
    g: GroupsView,
    ns: Seq<char>,
    other: KeyView,
    members: Seq<Seq<char>>,
    a: Seq<char>,
    b: Seq<char>,
)
    requires
        other.0 != ns,
    ensures
        reach(g, ns, a, b) <==> reach(g.insert(other, members), ns, a, b),
{
    let h = g.insert(other, members);
    assert(forall|x: Seq<char>, y: Seq<char>| edge(g, ns, x, y) == edge(h, ns, x, y));
    assert(forall|p: Seq<Seq<char>>| path(g, ns, p) == path(h, ns, p));
}

// --- walking reaches what there is to reach -----------------------------------

/// `m` is kept where it is met.
pub open spec fn is_leaf(g: GroupsView, ns: Seq<char>, m: Seq<char>, keep: bool) -> bool {
    match ref_name(m) {
        None => true,
        Some(name) => keep && !g.dom().contains((ns, name)),
    }
}

/// `m` is a member of the list, or of a group that the list leads to.
pub open spec fn leads(
    g: GroupsView,
    ns: Seq<char>,
    list: Seq<Seq<char>>,
    m: Seq<char>,
) -> bool {
    ||| list.contains(m)
    ||| exists|p: Seq<Seq<char>>|
        {
            &&& #[trigger] path(g, ns, p)
            &&& refers(list, p[0])
            &&& g.dom().contains((ns, p.last()))
            &&& g[(ns, p.last())].contains(m)
        }
}

/// The groups that have been seen when the walk is over.
spec fn visited(
    g: GroupsView,
    ns: Seq<char>,
    work: Seq<Seq<char>>,
    seen: Set<KeyView>,
) -> Set<KeyView>
    decreases unseen(g, seen), work.len(),
    when g.dom().finite()
{
    if work.len() == 0 {
        seen
    } else {
        match ref_name(work[0]) {
            None => visited(g, ns, work.drop_first(), seen),
            Some(name) => if !g.dom().contains((ns, name)) || seen.contains((ns, name)) {
                visited(g, ns, work.drop_first(), seen)
            } else {
                proof {
                    lemma_unseen(g, seen, (ns, name));
                }
                visited(g, ns, g[(ns, name)] + work.drop_first(), seen.insert((ns, name)))
            },
        }
    }
}

/// Nothing is met that the list does not lead to.
proof fn lemma_walk_sound(
    g: GroupsView,
    ns: Seq<char>,
    work: Seq<Seq<char>>,
    seen: Set<KeyView>,
    keep: bool,
    m: Seq<char>,
)
    requires
        g.dom().finite(),
        walk(g, ns, work, seen, keep).contains(m),
    ensures
        is_leaf(g, ns, m, keep),
        leads(g, ns, work, m),
    decreases unseen(g, seen), work.len(),
{
    if work.len() > 0 {
        let first = work[0];
        let rest = work.drop_first();
        let tail = walk(g, ns, rest, seen, keep);
        match ref_name(first) {
            Some(name) if g.dom().contains((ns, name)) && !seen.contains((ns, name)) => {
                let members = g[(ns, name)];
                lemma_unseen(g, seen, (ns, name));
                lemma_walk_sound(g, ns, members + rest, seen.insert((ns, name)), keep, m);
                assert(refers(work, name)) by {
                    assert(ref_name(work[0]) == Some(name));
                }
                lemma_leads_through(g, ns, work, name, rest, m);
            },
            _ => {
                if m == first && walk(g, ns, work, seen, keep) == seq![first] + tail && is_leaf(
                    g,
                    ns,
                    first,
                    keep,
                ) {
                    assert(work.contains(m));
                } else {
                    assert(tail.contains(m)) by {
                        let all = walk(g, ns, work, seen, keep);
                        let i = choose|i: int| 0 <= i < all.len() && all[i] == m;
                        if all == seq![first] + tail {
                            assert(i > 0);
                            assert(tail[i - 1] == m);
                        }
                    }
                    lemma_walk_sound(g, ns, rest, seen, keep, m);
                    lemma_leads_more(g, ns, work, m);
                }
            },
        }
    }
}

proof fn lemma_refers_more(list: Seq<Seq<char>>, name: Seq<char>)
    requires
        list.len() > 0,
        refers(list.drop_first(), name),
    ensures
        refers(list, name),
{
    let rest = list.drop_first();
    let i = choose|i: int| 0 <= i < rest.len() && ref_name(#[trigger] rest[i]) == Some(name);
    assert(ref_name(list[i + 1]) == Some(name));
}

proof fn lemma_leads_more(g: GroupsView, ns: Seq<char>, list: Seq<Seq<char>>, m: Seq<char>)
    requires
        list.len() > 0,
        leads(g, ns, list.drop_first(), m),
    ensures
        leads(g, ns, list, m),
{
    let rest = list.drop_first();
    if rest.contains(m) {
        let i = choose|i: int| 0 <= i < rest.len() && rest[i] == m;
        assert(list[i + 1] == m);
    } else {
        let p = choose|p: Seq<Seq<char>>|
            {
                &&& #[trigger] path(g, ns, p)
                &&& refers(rest, p[0])
                &&& g.dom().contains((ns, p.last()))
                &&& g[(ns, p.last())].contains(m)
            };
        lemma_refers_more(list, p[0]);
    }
}

/// What the members of a group lead to, a reference to it leads to.
proof fn lemma_leads_through(
    g: GroupsView,
    ns: Seq<char>,
    work: Seq<Seq<char>>,
    name: Seq<char>,
    rest: Seq<Seq<char>>,
    m: Seq<char>,
)
    requires
        work.len() > 0,
        rest == work.drop_first(),
        refers(work, name),
        g.dom().contains((ns, name)),
        leads(g, ns, g[(ns, name)] + rest, m),
    ensures
        leads(g, ns, work, m),
{
    let members = g[(ns, name)];
    let both = members + rest;
    if both.contains(m) {
        let i = choose|i: int| 0 <= i < both.len() && both[i] == m;
        if i < members.len() {
            assert(members[i] == m);
            let p = seq![name];
            assert(path(g, ns, p));
            assert(p[0] == name && p.last() == name);
        } else {
            assert(work[1 + i - members.len()] == m);
        }
    } else {
        let p = choose|p: Seq<Seq<char>>|
            {
                &&& #[trigger] path(g, ns, p)
                &&& refers(both, p[0])
                &&& g.dom().contains((ns, p.last()))
                &&& g[(ns, p.last())].contains(m)
            };
        let i = choose|i: int| 0 <= i < both.len() && ref_name(#[trigger] both[i]) == Some(p[0]);
        if i < members.len() {
            assert(members[i] == both[i]);
            assert(refers(members, p[0]));
            assert(edge(g, ns, name, p[0]));
            lemma_step(g, ns, name, p);
            let q = seq![name] + p;
            assert(q[0] == name && q.last() == p.last());
        } else {
            assert(rest[i - members.len()] == both[i]);
            assert(refers(rest, p[0]));
            lemma_refers_more(work, p[0]);
        }
    }
}

/// `m` has been dealt with: kept, or its group seen.
spec fn dealt(
    g: GroupsView,
    ns: Seq<char>,
    seen: Set<KeyView>,
    out: Seq<Seq<char>>,
    keep: bool,
    m: Seq<char>,
) -> bool {
    &&& is_leaf(g, ns, m, keep) ==> out.contains(m)
    &&& ref_name(m) matches Some(name) ==> g.dom().contains((ns, name)) ==> seen.contains(
        (ns, name),
    )
}

spec fn all_dealt(
    g: GroupsView,
    ns: Seq<char>,
    seen: Set<KeyView>,
    out: Seq<Seq<char>>,
    keep: bool,
    list: Seq<Seq<char>>,
) -> bool {
    forall|i: int| 0 <= i < list.len() ==> dealt(g, ns, seen, out, keep, #[trigger] list[i])
}

/// Nothing is missed.
proof fn lemma_walk_complete(
    g: GroupsView,
    ns: Seq<char>,
    work: Seq<Seq<char>>,
    seen: Set<KeyView>,
    keep: bool,
)
    requires
        g.dom().finite(),
    ensures
        seen.subset_of(visited(g, ns, work, seen)),
        all_dealt(
            g,
            ns,
            visited(g, ns, work, seen),
            walk(g, ns, work, seen, keep),
            keep,
            work,
        ),
        forall|name: Seq<char>|
            #![trigger visited(g, ns, work, seen).contains((ns, name))]
            visited(g, ns, work, seen).contains((ns, name)) && !seen.contains((ns, name))
                ==> g.dom().contains((ns, name)) && all_dealt(
                g,
                ns,
                visited(g, ns, work, seen),
                walk(g, ns, work, seen, keep),
                keep,
                g[(ns, name)],
            ),
    decreases unseen(g, seen), work.len(),
{
    if work.len() > 0 {
        let first = work[0];
        let rest = work.drop_first();
        let done = visited(g, ns, work, seen);
        let out = walk(g, ns, work, seen, keep);
        match ref_name(first) {
            Some(name) if g.dom().contains((ns, name)) && !seen.contains((ns, name)) => {
                let members = g[(ns, name)];
                let both = members + rest;
                lemma_unseen(g, seen, (ns, name));
                lemma_walk_complete(g, ns, both, seen.insert((ns, name)), keep);
                assert(done.contains((ns, name)));
                assert forall|i: int| 0 <= i < work.len() implies dealt(
                    g,
                    ns,
                    done,
                    out,
                    keep,
                    #[trigger] work[i],
                ) by {
                    if i > 0 {
                        assert(both[members.len() + i - 1] == work[i]);
                    }
                }
                assert(all_dealt(g, ns, done, out, keep, members)) by {
                    assert forall|i: int| 0 <= i < members.len() implies dealt(
                        g,
                        ns,
                        done,
                        out,
                        keep,
                        #[trigger] members[i],
                    ) by {
                        assert(both[i] == members[i]);
                    }
                }
            },
            _ => {
                let tail = walk(g, ns, rest, seen, keep);
                lemma_walk_complete(g, ns, rest, seen, keep);
                assert forall|m: Seq<char>| #[trigger] tail.contains(m) implies out.contains(m) by {
                    if out != tail {
                        assert(out == seq![first] + tail);
                        let i = choose|i: int| 0 <= i < tail.len() && tail[i] == m;
                        assert(out[i + 1] == m);
                    }
                }
                assert(dealt(g, ns, done, out, keep, first)) by {
                    if is_leaf(g, ns, first, keep) {
                        assert(out[0] == first);
                    }
                }
                assert forall|i: int| 0 <= i < work.len() implies dealt(
                    g,
                    ns,
                    done,
                    out,
                    keep,
                    #[trigger] work[i],
                ) by {
                    if i > 0 {
                        assert(dealt(g, ns, done, tail, keep, rest[i - 1]));
                    }
                }
                assert forall|name: Seq<char>|
                    #![trigger done.contains((ns, name))]
                    done.contains((ns, name)) && !seen.contains((ns, name)) implies all_dealt(
                    g,
                    ns,
                    done,
                    out,
                    keep,
                    g[(ns, name)],
                ) by {
                    let list = g[(ns, name)];
                    assert(all_dealt(g, ns, done, tail, keep, list));
                    assert forall|i: int| 0 <= i < list.len() implies dealt(
                        g,
                        ns,
                        done,
                        out,
                        keep,
                        #[trigger] list[i],
                    ) by {
                        assert(dealt(g, ns, done, tail, keep, list[i]));
                    }
                }
            },
        }
    }
}

/// A walk keeps exactly the leaves that the list leads to, through any number of
/// groups, whether or not they lead in circles.
pub proof fn law_walk_finds_all_and_only(
    g: GroupsView,
    ns: Seq<char>,
    list: Seq<Seq<char>>,
    keep: bool,
    m: Seq<char>,
)
    requires
        g.dom().finite(),
    ensures
        walk(g, ns, list, Set::empty(), keep).contains(m) <==> is_leaf(g, ns, m, keep) && leads(
            g,
            ns,
            list,
            m,
        ),
{
    let none = Set::<KeyView>::empty();
    let out = walk(g, ns, list, none, keep);
    let done = visited(g, ns, list, none);
    if out.contains(m) {
        lemma_walk_sound(g, ns, list, none, keep, m);
    }
    if is_leaf(g, ns, m, keep) && leads(g, ns, list, m) {
        lemma_walk_complete(g, ns, list, none, keep);
        if list.contains(m) {
            let i = choose|i: int| 0 <= i < list.len() && list[i] == m;
            assert(dealt(g, ns, done, out, keep, list[i]));
        } else {
            let p = choose|p: Seq<Seq<char>>|
                {
                    &&& #[trigger] path(g, ns, p)
                    &&& refers(list, p[0])
                    &&& g.dom().contains((ns, p.last()))
                    &&& g[(ns, p.last())].contains(m)
                };
            lemma_path_visited(g, ns, list, keep, p, p.len() - 1);
            let members = g[(ns, p.last())];
            let i = choose|i: int| 0 <= i < members.len() && members[i] == m;
            assert(dealt(g, ns, done, out, keep, members[i]));
        }
    }
}

proof fn lemma_path_visited(
    g: GroupsView,
    ns: Seq<char>,
    list: Seq<Seq<char>>,
    keep: bool,
    p: Seq<Seq<char>>,
    n: int,
)
    requires
        g.dom().finite(),
        path(g, ns, p),
        refers(list, p[0]),
        g.dom().contains((ns, p.last())),
        0 <= n < p.len(),
    ensures
        visited(g, ns, list, Set::empty()).contains((ns, p[n])),
    decreases n,
{
    let none = Set::<KeyView>::empty();
    let out = walk(g, ns, list, none, keep);
    let done = visited(g, ns, list, none);
    lemma_walk_complete(g, ns, list, none, keep);
    assert(g.dom().contains((ns, p[n]))) by {
        if n < p.len() - 1 {
            assert(edge(g, ns, p[n], p[n + 1]));
        }
    }
    if n == 0 {
        let i = choose|i: int| 0 <= i < list.len() && ref_name(#[trigger] list[i]) == Some(p[0]);
        assert(dealt(g, ns, done, out, keep, list[i]));
    } else {
        lemma_path_visited(g, ns, list, keep, p, n - 1);
        assert(edge(g, ns, p[n - 1], p[n]));
        let members = g[(ns, p[n - 1])];
        let i = choose|i: int|
            0 <= i < members.len() && ref_name(#[trigger] members[i]) == Some(p[n]);
        assert(dealt(g, ns, done, out, keep, members[i]));
    }
}

// --- the groups ---------------------------------------------------------------

/// One group.
#[derive(Debug)]
pub struct Entry {
    pub ns: String,
    pub name: String,
    pub members: Vec<String>,
}

impl Entry {
    pub open spec fn key(self) -> KeyView {
        (self.ns@, self.name@)
    }
}

pub open spec fn unique(es: Seq<Entry>) -> bool {
    forall|i: int, j: int|
        #![trigger es[i], es[j]]
        0 <= i < j < es.len() ==> es[i].key() != es[j].key()
}

pub open spec fn keys(es: Seq<Entry>) -> Seq<KeyView> {
    es.map_values(|e: Entry| e.key())
}

/// The members of every group, by its key.
pub open spec fn table(es: Seq<Entry>) -> GroupsView {
    Map::new(
        |k: KeyView| exists|i: int| 0 <= i < es.len() && (#[trigger] es[i]).key() == k,
        |k: KeyView|
            texts(
                es[choose|i: int| 0 <= i < es.len() && (#[trigger] es[i]).key() == k].members@,
            ),
    )
}

pub proof fn lemma_table(es: Seq<Entry>)
    requires
        unique(es),
    ensures
        table(es).dom().finite(),
        table(es).dom().len() == es.len(),
        forall|i: int|
            0 <= i < es.len() ==> table(es).dom().contains((#[trigger] es[i]).key()) && table(
                es,
            )[es[i].key()] == texts(es[i].members@),
{
    let ks = keys(es);
    assert(ks.no_duplicates()) by {
        assert forall|i: int, j: int| 0 <= i < ks.len() && 0 <= j < ks.len() && i != j implies ks[i]
            != ks[j] by {
            if i < j {
                assert(es[i].key() != es[j].key());
            } else {
                assert(es[j].key() != es[i].key());
            }
        }
    }
    ks.unique_seq_to_set();
    assert(table(es).dom() =~= ks.to_set()) by {
        assert forall|k: KeyView| table(es).dom().contains(k) <==> ks.to_set().contains(k) by {
            if table(es).dom().contains(k) {
                let i = choose|i: int| 0 <= i < es.len() && (#[trigger] es[i]).key() == k;
                assert(ks[i] == k);
            }
            if ks.contains(k) {
                let i = choose|i: int| 0 <= i < ks.len() && ks[i] == k;
                assert(es[i].key() == k);
            }
        }
    }
    vstd::seq_lib::seq_to_set_is_finite(ks);
    assert forall|i: int| 0 <= i < es.len() implies table(es)[(#[trigger] es[i]).key()] == texts(
        es[i].members@,
    ) by {
        let k = es[i].key();
        let j = choose|j: int| 0 <= j < es.len() && (#[trigger] es[j]).key() == k;
        if i < j {
            assert(es[i].key() != es[j].key());
        } else if j < i {
            assert(es[j].key() != es[i].key());
        }
    }
}

/// The group that a member refers to.
pub fn ref_of(m: &str) -> (r: Option<String>)
    ensures
        match r {
            Some(name) => ref_name(m@) == Some(name@),
            None => ref_name(m@) is None,
        },
{
    let chars = chars_of(m);
    if chars.len() > 0 && chars[0] == '@' {
        let name = slice_subrange(&chars, 1, chars.len());
        assert(name@ =~= m@.skip(1));
        Some(string_of(name))
    } else {
        None
    }
}

/// How many are not marked.
spec fn unmarked(marks: Seq<bool>) -> nat
    decreases marks.len(),
{
    if marks.len() == 0 {
        0
    } else {
        unmarked(marks.drop_last()) + if marks.last() {
            0nat
        } else {
            1nat
        }
    }
}

proof fn lemma_marking(marks: Seq<bool>, i: int)
    requires
        0 <= i < marks.len(),
        !marks[i],
    ensures
        unmarked(marks.update(i, true)) < unmarked(marks),
    decreases marks.len(),
{
    let now = marks.update(i, true);
    if i == marks.len() - 1 {
        assert(now.drop_last() =~= marks.drop_last());
    } else {
        assert(now.drop_last() =~= marks.drop_last().update(i, true));
        lemma_marking(marks.drop_last(), i);
    }
}

/// What is still to be walked: the top of the stack first.
spec fn pending(stack: Seq<&String>) -> Seq<Seq<char>> {
    Seq::new(stack.len(), |i: int| stack[stack.len() - 1 - i]@)
}

/// Put a list on the stack, its first member on top.
fn push_all<'a>(stack: &mut Vec<&'a String>, list: &'a [String])
    ensures
        pending(final(stack)@) == texts(list@) + pending(old(stack)@),
{
    let ghost before = stack@;
    let mut i: usize = list.len();
    assert(texts(list@).skip(i as int) + pending(stack@) =~= pending(before));
    while i > 0
        invariant
            i <= list@.len(),
            pending(stack@) == texts(list@).skip(i as int) + pending(before),
        decreases i,
    {
        i -= 1;
        let ghost mid = stack@;
        stack.push(&list[i]);
        assert(pending(stack@) =~= seq![list@[i as int]@] + pending(mid));
        assert(texts(list@).skip(i as int) =~= seq![list@[i as int]@] + texts(list@).skip(i + 1));
        assert(pending(stack@) =~= texts(list@).skip(i as int) + pending(before));
    }
    assert(texts(list@).skip(0) =~= texts(list@));
}

#[derive(Debug)]
pub struct Groups {
    entries: Vec<Entry>,
}

impl View for Groups {
    type V = GroupsView;

    closed spec fn view(&self) -> GroupsView {
        table(self.entries@)
    }
}

impl Default for Groups {
    fn default() -> (r: Self)
        ensures
            r@ == Map::<KeyView, Seq<Seq<char>>>::empty(),
    {
        let r = Groups { entries: Vec::new() };
        assert(r@ =~= Map::empty());
        r
    }
}

impl Groups {
    #[verifier::type_invariant]
    spec fn well_formed(self) -> bool {
        unique(self.entries@)
    }

    /// All groups, in no particular order.
    pub fn entries(&self) -> (r: &Vec<Entry>)
        ensures
            unique(r@),
            self@ == table(r@),
    {
        proof {
            use_type_invariant(self);
        }
        &self.entries
    }

    pub fn len(&self) -> (r: usize)
        ensures
            self@.dom().finite(),
            r == self@.dom().len(),
    {
        proof {
            use_type_invariant(self);
            lemma_table(self.entries@);
        }
        self.entries.len()
    }

    fn position(&self, ns: &str, name: &str) -> (r: Option<usize>)
        ensures
            match r {
                Some(i) => i < self.entries@.len() && self.entries@[i as int].key() == (ns@, name@),
                None => !self@.dom().contains((ns@, name@)),
            },
    {
        let mut i: usize = 0;
        while i < self.entries.len()
            invariant
                i <= self.entries@.len(),
                forall|j: int|
                    0 <= j < i ==> (#[trigger] self.entries@[j]).key() != (ns@, name@),
            decreases self.entries@.len() - i,
        {
            if same(&self.entries[i].name, name) && same(&self.entries[i].ns, ns) {
                return Some(i);
            }
            i += 1;
        }
        None
    }

    /// The members of a group.
    pub fn get(&self, ns: &str, name: &str) -> (r: Option<&Vec<String>>)
        ensures
            match r {
                Some(members) => self@.dom().contains((ns@, name@)) && self@[(ns@, name@)]
                    == texts(members@),
                None => !self@.dom().contains((ns@, name@)),
            },
    {
        proof {
            use_type_invariant(self);
            lemma_table(self.entries@);
        }
        match self.position(ns, name) {
            Some(i) => Some(&self.entries[i].members),
            None => None,
        }
    }

    /// Insert or replace a group.
    pub fn insert(&mut self, ns: String, name: String, members: Vec<String>)
        ensures
            final(self)@ == old(self)@.insert((ns@, name@), texts(members@)),
    {
        proof {
            use_type_invariant(&*self);
        }
        let found = self.position(&ns, &name);
        let ghost before = self.entries@;
        let ghost k = (ns@, name@);
        let mut es: Vec<Entry> = Vec::new();
        std::mem::swap(&mut es, &mut self.entries);
        let entry = Entry { ns, name, members };
        match found {
            Some(i) => {
                es.set(i, entry);
            },
            None => {
                proof {
                    assert forall|j: int| 0 <= j < before.len() implies (#[trigger] before[j]).key()
                        != k by {
                        assert(!table(before).dom().contains(k));
                    }
                }
                es.push(entry);
            },
        }
        proof {
            assert(unique(es@)) by {
                assert forall|i: int, j: int|
                    #![trigger es@[i], es@[j]]
                    0 <= i < j < es@.len() implies es@[i].key() != es@[j].key() by {
                    if j < before.len() {
                        assert(before[i].key() != before[j].key());
                    }
                }
            }
            lemma_table(before);
            lemma_table(es@);
            let n = match found {
                Some(i) => i as int,
                None => before.len() as int,
            };
            assert(es@[n] == entry);
            assert(es@[n].key() == k);
            lemma_changed(before, es@, k, texts(members@));
        }
        self.entries = es;
    }

    /// Take a group away.
    pub fn remove(&mut self, ns: &str, name: &str)
        ensures
            final(self)@ == old(self)@.remove((ns@, name@)),
    {
        proof {
            use_type_invariant(&*self);
        }
        let found = self.position(ns, name);
        let ghost before = self.entries@;
        let ghost k = (ns@, name@);
        if let Some(i) = found {
            let mut es: Vec<Entry> = Vec::new();
            std::mem::swap(&mut es, &mut self.entries);
            es.remove(i);
            proof {
                assert forall|a: int, b: int|
                    #![trigger es@[a], es@[b]]
                    0 <= a < b < es@.len() implies es@[a].key() != es@[b].key() by {
                    let x = if a < i { a } else { a + 1 };
                    let y = if b < i { b } else { b + 1 };
                    assert(before[x].key() != before[y].key());
                }
                lemma_table(before);
                lemma_table(es@);
                assert forall|q: KeyView|
                    table(es@).dom().contains(q) <==> table(before).dom().contains(q) && q
                        != k by {
                    if table(es@).dom().contains(q) {
                        let a = choose|a: int| 0 <= a < es@.len() && (#[trigger] es@[a]).key() == q;
                        let x = if a < i { a } else { a + 1 };
                        assert(before[x].key() == q);
                        if x < i {
                            assert(before[x].key() != before[i as int].key());
                        } else {
                            assert(before[i as int].key() != before[x].key());
                        }
                    }
                    if table(before).dom().contains(q) && q != k {
                        let x = choose|x: int|
                            0 <= x < before.len() && (#[trigger] before[x]).key() == q;
                        let a = if x < i { x } else { x - 1 };
                        assert(es@[a].key() == q);
                    }
                }
                assert forall|q: KeyView| #[trigger] table(es@).dom().contains(q) implies table(
                    es@,
                )[q] == table(before)[q] by {
                    let a = choose|a: int| 0 <= a < es@.len() && (#[trigger] es@[a]).key() == q;
                    let x = if a < i { a } else { a + 1 };
                    assert(before[x] == es@[a]);
                    assert(table(es@)[es@[a].key()] == texts(es@[a].members@));
                    assert(table(before)[before[x].key()] == texts(before[x].members@));
                }
                assert(table(es@) =~= table(before).remove(k));
            }
            self.entries = es;
        } else {
            assert(self@ =~= old(self)@.remove(k));
        }
    }

    /// Drop every group.
    pub fn clear(&mut self)
        ensures
            final(self)@ == Map::<KeyView, Seq<Seq<char>>>::empty(),
    {
        self.entries = Vec::new();
        assert(self@ =~= Map::empty());
    }

    /// Walk from `entry`, collecting what is met.
    pub fn walk(&self, ns: &str, entry: &[String], keep: bool) -> (r: Vec<String>)
        ensures
            self@.dom().finite(),
            texts(r@) == walk(self@, ns@, texts(entry@), Set::empty(), keep),
    {
        proof {
            use_type_invariant(self);
            lemma_table(self.entries@);
        }
        let ghost g = self@;
        let ghost es = self.entries@;
        let ghost goal = walk(g, ns@, texts(entry@), Set::empty(), keep);
        let ghost mut seen: Set<KeyView> = Set::empty();
        let mut marks: Vec<bool> = Vec::new();
        while marks.len() < self.entries.len()
            invariant
                marks@.len() <= self.entries@.len(),
                forall|i: int| 0 <= i < marks@.len() ==> !#[trigger] marks@[i],
            decreases self.entries@.len() - marks@.len(),
        {
            marks.push(false);
        }
        let mut stack: Vec<&String> = Vec::new();
        push_all(&mut stack, entry);
        assert(pending(stack@) =~= texts(entry@));
        let mut out: Vec<String> = Vec::new();
        assert(texts(out@) =~= seq![]);
        assert(seq![] + goal =~= goal);
        while stack.len() > 0
            invariant
                g == self@,
                es == self.entries@,
                g == table(es),
                unique(es),
                g.dom().finite(),
                marks@.len() == es.len(),
                forall|i: int|
                    0 <= i < es.len() ==> (#[trigger] marks@[i] <==> seen.contains(es[i].key())),
                texts(out@) + walk(g, ns@, pending(stack@), seen, keep) == goal,
            decreases unmarked(marks@), stack@.len(),
        {
            let ghost work = pending(stack@);
            let ghost before = out@;
            let m = stack.pop().unwrap();
            assert(work[0] == m@);
            assert(pending(stack@) =~= work.drop_first());
            let mut kept = true;
            if let Some(name) = ref_of(m) {
                if let Some(i) = self.position(ns, &name) {
                    proof {
                        lemma_table(es);
                        assert(g.dom().contains(es[i as int].key()));
                    }
                    kept = false;
                    if !marks[i] {
                        proof {
                            lemma_marking(marks@, i as int);
                            assert(g[es[i as int].key()] == texts(es[i as int].members@));
                        }
                        let ghost rest = pending(stack@);
                        let ghost marks0 = marks@;
                        push_all(&mut stack, &self.entries[i].members);
                        marks.set(i, true);
                        proof {
                            let k = es[i as int].key();
                            assert forall|j: int| 0 <= j < es.len() implies (#[trigger] marks@[j]
                                <==> seen.insert(k).contains(es[j].key())) by {
                                if j < i {
                                    assert(es[j].key() != es[i as int].key());
                                } else if i < j {
                                    assert(es[i as int].key() != es[j].key());
                                }
                                assert(j == i || marks@[j] == marks0[j]);
                            }
                            seen = seen.insert(k);
                        }
                    }
                } else if !keep {
                    kept = false;
                }
            }
            if kept {
                out.push(m.clone());
                proof {
                    assert(texts(out@) =~= texts(before).push(m@));
                    let tail = walk(g, ns@, pending(stack@), seen, keep);
                    assert(texts(before) + (seq![m@] + tail) =~= texts(out@) + tail);
                }
            }
        }
        proof {
            assert(texts(out@) + walk(g, ns@, pending(stack@), seen, keep) =~= texts(out@));
        }
        out
    }

    /// A path from `target` to `name`, where there is one.
    fn probe(&self, ns: &str, target: &str, name: &str) -> (r: Option<Vec<String>>)
        ensures
            match r {
                Some(p) => path(self@, ns@, texts(p@)) && texts(p@)[0] == target@ && texts(
                    p@,
                ).last() == name@ && texts(p@).no_duplicates(),
                None => !reach(self@, ns@, target@, name@),
            },
    {
        proof {
            use_type_invariant(self);
            lemma_table(self.entries@);
        }
        let ghost g = self@;
        let ghost es = self.entries@;
        let ghost mut seen: Set<KeyView> = Set::empty();
        let mut marks: Vec<bool> = Vec::new();
        while marks.len() < self.entries.len()
            invariant
                marks@.len() <= self.entries@.len(),
                forall|i: int| 0 <= i < marks@.len() ==> !#[trigger] marks@[i],
            decreases self.entries@.len() - marks@.len(),
        {
            marks.push(false);
        }
        let mut first: Vec<String> = Vec::new();
        first.push(String::from_str(target));
        assert(texts(first@) =~= seq![target@]);
        let mut stack: Vec<Vec<String>> = Vec::new();
        stack.push(first);
        assert(on_top(stack@[0], target@));
        assert(waiting(stack@, target@));
        while stack.len() > 0
            invariant
                g == self@,
                es == self.entries@,
                g == table(es),
                unique(es),
                marks@.len() == es.len(),
                forall|i: int|
                    0 <= i < es.len() ==> (#[trigger] marks@[i] <==> seen.contains(es[i].key())),
                !seen.contains((ns@, name@)),
                forall|i: int|
                    0 <= i < stack@.len() ==> path(g, ns@, texts((#[trigger] stack@[i])@)) && texts(
                        stack@[i]@,
                    )[0] == target@,
                forall|i: int|
                    0 <= i < stack@.len() ==> been_through(
                        ns@,
                        seen,
                        texts((#[trigger] stack@[i])@),
                    ),
                handled(g, ns@, name@, seen, stack@, target@),
                forall|a: Seq<char>, b: Seq<char>|
                    seen.contains((ns@, a)) && #[trigger] edge(g, ns@, a, b) ==> handled(
                        g,
                        ns@,
                        name@,
                        seen,
                        stack@,
                        b,
                    ),
            decreases unmarked(marks@), stack@.len(),
        {
            let ghost stack0 = stack@;
            let ghost seen0 = seen;
            let p = stack.pop().unwrap();
            let ghost pv = texts(p@);
            assert(stack0.last() == p);
            let cur = &p[p.len() - 1];
            assert(pv.last() == cur@);
            proof {
                assert(been_through(ns@, seen, texts(stack0[stack0.len() - 1]@)));
                if !seen.contains((ns@, cur@)) {
                    lemma_new_end(ns@, seen, pv);
                }
            }
            if same(cur, name) {
                return Some(p);
            }
            match self.position(ns, cur) {
                None => {
                    proof {
                        assert forall|b: Seq<char>|
                            handled(g, ns@, name@, seen, stack0, b) implies #[trigger] handled(
                            g,
                            ns@,
                            name@,
                            seen,
                            stack@,
                            b,
                        ) by {
                            lemma_popped(stack0, b);
                            assert(stack@ =~= stack0.drop_last());
                        }
                    }
                },
                Some(i) => {
                    if marks[i] {
                        proof {
                            assert(seen.contains(es[i as int].key()));
                            assert forall|b: Seq<char>|
                                handled(g, ns@, name@, seen, stack0, b) implies #[trigger] handled(
                                g,
                                ns@,
                                name@,
                                seen,
                                stack@,
                                b,
                            ) by {
                                lemma_popped(stack0, b);
                                assert(stack@ =~= stack0.drop_last());
                            }
                        }
                    } else {
                        let ghost k = es[i as int].key();
                        let ghost marks0 = marks@;
                        proof {
                            lemma_marking(marks@, i as int);
                            lemma_table(es);
                        }
                        marks.set(i, true);
                        proof {
                            assert forall|j: int| 0 <= j < es.len() implies (#[trigger] marks@[j]
                                <==> seen.insert(k).contains(es[j].key())) by {
                                if j < i {
                                    assert(es[j].key() != es[i as int].key());
                                } else if i < j {
                                    assert(es[i as int].key() != es[j].key());
                                }
                                assert(j == i || marks@[j] == marks0[j]);
                            }
                            seen = seen.insert(k);
                        }
                        proof {
                            assert forall|j: int| 0 <= j < stack@.len() implies been_through(
                                ns@,
                                seen,
                                texts((#[trigger] stack@[j])@),
                            ) by {
                                assert(been_through(ns@, seen0, texts(stack0[j]@)));
                            }
                        }
                        let children = &self.entries[i].members;
                        let ghost cv = texts(children@);
                        assert(g.dom().contains(es[i as int].key()));
                        assert(g[k] == cv);
                        let mut c: usize = 0;
                        while c < children.len()
                            invariant
                                c <= children@.len(),
                                cv == texts(children@),
                                g.dom().contains((ns@, pv.last())),
                                g[(ns@, pv.last())] == cv,
                                pv == texts(p@),
                                path(g, ns@, pv),
                                pv[0] == target@,
                                stack@.len() >= stack0.len() - 1,
                                stack0.len() > 0,
                                forall|j: int| 0 <= j < stack0.len() - 1 ==> stack@[j] == stack0[j],
                                forall|j: int|
                                    0 <= j < stack@.len() ==> path(
                                        g,
                                        ns@,
                                        texts((#[trigger] stack@[j])@),
                                    ) && texts(stack@[j]@)[0] == target@,
                                pv.no_duplicates(),
                                forall|x: int|
                                    0 <= x < pv.len() ==> seen.contains((ns@, #[trigger] pv[x])),
                                forall|j: int|
                                    0 <= j < stack@.len() ==> been_through(
                                        ns@,
                                        seen,
                                        texts((#[trigger] stack@[j])@),
                                    ),
                                forall|j: int, b: Seq<char>|
                                    0 <= j < c && ref_name(#[trigger] cv[j]) == Some(b)
                                        ==> #[trigger] waiting(stack@, b),
                            decreases children@.len() - c,
                        {
                            let ghost mid = stack@;
                            if let Some(t) = ref_of(&children[c]) {
                                let mut np = copy_of(&p);
                                let ghost tv = t@;
                                np.push(t);
                                proof {
                                    let nv = texts(np@);
                                    assert(nv =~= pv.push(tv));
                                    assert(cv[c as int] == children@[c as int]@);
                                    assert(refers(cv, tv));
                                    assert(edge(g, ns@, pv.last(), tv));
                                    assert forall|x: int, y: int|
                                        #![trigger nv[x], nv[y]]
                                        0 <= x && y == x + 1 && y < nv.len() implies edge(
                                        g,
                                        ns@,
                                        nv[x],
                                        nv[y],
                                    ) by {
                                        if y < pv.len() {
                                            assert(edge(g, ns@, pv[x], pv[y]));
                                        }
                                    }
                                    assert(on_top(np, tv));
                                    assert(nv.drop_last() =~= pv);
                                    assert(been_through(ns@, seen, nv));
                                }
                                stack.push(np);
                                proof {
                                    assert(stack@[stack@.len() - 1] == np);
                                    assert(waiting(stack@, tv));
                                    assert forall|b: Seq<char>| waiting(mid, b) implies
                                        #[trigger] waiting(stack@, b) by {
                                        let j = choose|j: int|
                                            0 <= j < mid.len() && on_top(#[trigger] mid[j], b);
                                        assert(stack@[j] == mid[j]);
                                    }
                                }
                            }
                            c += 1;
                        }
                        proof {
                            assert forall|b: Seq<char>|
                                handled(g, ns@, name@, seen0, stack0, b) implies #[trigger] handled(
                                g,
                                ns@,
                                name@,
                                seen,
                                stack@,
                                b,
                            ) by {
                                lemma_popped(stack0, b);
                                if waiting(stack0.drop_last(), b) {
                                    let rest = stack0.drop_last();
                                    let j = choose|j: int|
                                        0 <= j < rest.len() && on_top(#[trigger] rest[j], b);
                                    assert(stack@[j] == stack0[j]);
                                    assert(on_top(stack@[j], b));
                                }
                            }
                            assert forall|a: Seq<char>, b: Seq<char>|
                                seen.contains((ns@, a)) && #[trigger] edge(g, ns@, a, b) implies handled(
                                g,
                                ns@,
                                name@,
                                seen,
                                stack@,
                                b,
                            ) by {
                                if seen0.contains((ns@, a)) {
                                    assert(handled(g, ns@, name@, seen0, stack0, b));
                                } else {
                                    assert(a == pv.last());
                                    let j = choose|j: int|
                                        0 <= j < cv.len() && ref_name(#[trigger] cv[j]) == Some(b);
                                    assert(waiting(stack@, b));
                                }
                            }
                        }
                    }
                },
            }
        }
        proof {
            if reach(g, ns@, target@, name@) {
                let p = choose|p: Seq<Seq<char>>| #[trigger]
                    path(g, ns@, p) && p[0] == target@ && p.last() == name@;
                lemma_all_handled(g, ns@, name@, seen, stack@, p, p.len() - 1);
            }
        }
        None
    }

    /// Whether giving `name` these members would let it lead back to itself, and
    /// on which way.
    pub fn cycle_probe(&self, ns: &str, name: &str, members: &[String]) -> (r: Option<
        Vec<String>,
    >)
        ensures
            match r {
                Some(p) => closes_along(self@, ns@, name@, texts(members@), texts(p@)),
                None => !closes(self@, ns@, name@, texts(members@)),
            },
    {
        let ghost mv = texts(members@);
        let mut i: usize = 0;
        while i < members.len()
            invariant
                i <= members@.len(),
                mv == texts(members@),
                forall|j: int|
                    0 <= j < i ==> (ref_name(#[trigger] mv[j]) matches Some(t) ==> !reach(
                        self@,
                        ns@,
                        t,
                        name@,
                    )),
            decreases members@.len() - i,
        {
            assert(mv[i as int] == members@[i as int]@);
            if let Some(target) = ref_of(&members[i]) {
                if let Some(rest) = self.probe(ns, &target, name) {
                    let mut full: Vec<String> = Vec::new();
                    full.push(String::from_str(name));
                    let mut tail = rest;
                    let ghost rv = texts(tail@);
                    full.append(&mut tail);
                    proof {
                        let fv = texts(full@);
                        assert(fv =~= seq![name@] + rv);
                        assert(fv.skip(1) =~= rv);
                        assert(fv[1] == rv[0]);
                        assert(ref_name(mv[i as int]) == Some(fv[1]));
                    }
                    return Some(full);
                }
            }
            i += 1;
        }
        proof {
            if closes(self@, ns@, name@, mv) {
                let t = choose|t: Seq<char>| #[trigger] refers(mv, t) && reach(
                    self@,
                    ns@,
                    t,
                    name@,
                );
                let j = choose|j: int| 0 <= j < mv.len() && ref_name(#[trigger] mv[j]) == Some(t);
                assert(!reach(self@, ns@, t, name@));
            }
        }
        None
    }
}

/// All names before the last have been seen, none of them twice.
spec fn been_through(ns: Seq<char>, seen: Set<KeyView>, p: Seq<Seq<char>>) -> bool {
    &&& p.drop_last().no_duplicates()
    &&& forall|x: int| 0 <= x < p.len() - 1 ==> seen.contains((ns, #[trigger] p[x]))
}

/// A path that ends in something unseen passes nothing twice.
proof fn lemma_new_end(ns: Seq<char>, seen: Set<KeyView>, p: Seq<Seq<char>>)
    requires
        p.len() > 0,
        been_through(ns, seen, p),
        !seen.contains((ns, p.last())),
    ensures
        p.no_duplicates(),
{
    let head = p.drop_last();
    assert forall|i: int, j: int| 0 <= i < p.len() && 0 <= j < p.len() && i != j implies p[i]
        != p[j] by {
        if i < head.len() && j < head.len() {
            assert(head[i] != head[j]);
        }
    }
}

spec fn on_top(p: Vec<String>, b: Seq<char>) -> bool {
    texts(p@).len() > 0 && texts(p@).last() == b
}

/// Some path on the stack ends in `b`.
spec fn waiting(stack: Seq<Vec<String>>, b: Seq<char>) -> bool {
    exists|j: int| 0 <= j < stack.len() && on_top(#[trigger] stack[j], b)
}

/// `b` has been seen, is waiting to be, or is a dead end.
spec fn handled(
    g: GroupsView,
    ns: Seq<char>,
    name: Seq<char>,
    seen: Set<KeyView>,
    stack: Seq<Vec<String>>,
    b: Seq<char>,
) -> bool {
    ||| seen.contains((ns, b))
    ||| waiting(stack, b)
    ||| b != name && !g.dom().contains((ns, b))
}

proof fn lemma_popped(stack: Seq<Vec<String>>, b: Seq<char>)
    requires
        stack.len() > 0,
    ensures
        waiting(stack, b) ==> waiting(stack.drop_last(), b) || on_top(stack.last(), b),
{
    if waiting(stack, b) {
        let j = choose|j: int| 0 <= j < stack.len() && on_top(#[trigger] stack[j], b);
        if j < stack.len() - 1 {
            assert(stack.drop_last()[j] == stack[j]);
        }
    }
}

/// Where nothing waits, all of a path has been seen or is a dead end.
proof fn lemma_all_handled(
    g: GroupsView,
    ns: Seq<char>,
    name: Seq<char>,
    seen: Set<KeyView>,
    stack: Seq<Vec<String>>,
    p: Seq<Seq<char>>,
    n: int,
)
    requires
        stack.len() == 0,
        path(g, ns, p),
        0 <= n < p.len(),
        handled(g, ns, name, seen, stack, p[0]),
        forall|a: Seq<char>, b: Seq<char>|
            seen.contains((ns, a)) && #[trigger] edge(g, ns, a, b) ==> handled(
                g,
                ns,
                name,
                seen,
                stack,
                b,
            ),
    ensures
        handled(g, ns, name, seen, stack, p[n]),
    decreases n,
{
    if n > 0 {
        lemma_all_handled(g, ns, name, seen, stack, p, n - 1);
        assert(edge(g, ns, p[n - 1], p[n]));
    }
}

/// One group changed, and the others as they were.
proof fn lemma_changed(a: Seq<Entry>, b: Seq<Entry>, k: KeyView, members: Seq<Seq<char>>)
    requires
        unique(a),
        unique(b),
        exists|i: int| 0 <= i < b.len() && (#[trigger] b[i]).key() == k && texts(b[i].members@)
            == members,
        forall|i: int|
            0 <= i < a.len() && (#[trigger] a[i]).key() != k ==> i < b.len() && b[i] == a[i],
        forall|i: int|
            0 <= i < b.len() && (#[trigger] b[i]).key() != k ==> i < a.len() && b[i] == a[i],
    ensures
        table(b) == table(a).insert(k, members),
{
    lemma_table(a);
    lemma_table(b);
    let n = choose|i: int|
        0 <= i < b.len() && (#[trigger] b[i]).key() == k && texts(b[i].members@) == members;
    assert(table(b)[b[n].key()] == members);
    assert forall|q: KeyView| q != k implies (table(b).dom().contains(q) <==> table(
        a,
    ).dom().contains(q)) && (table(b).dom().contains(q) ==> table(b)[q] == table(a)[q]) by {
        if table(a).dom().contains(q) {
            let i = choose|i: int| 0 <= i < a.len() && (#[trigger] a[i]).key() == q;
            assert(b[i].key() == q);
            assert(table(a)[a[i].key()] == texts(a[i].members@));
            assert(table(b)[b[i].key()] == texts(b[i].members@));
        }
        if table(b).dom().contains(q) {
            let i = choose|i: int| 0 <= i < b.len() && (#[trigger] b[i]).key() == q;
            assert(a[i].key() == q);
        }
    }
    assert(table(b) =~= table(a).insert(k, members));
}

// --- references, and what they stand for --------------------------------------

/// `@` and a name is a reference to that name, and nothing else is a reference.
pub proof fn law_references_name_groups(name: Seq<char>, m: Seq<char>)
    ensures
        ref_name(seq!['@'] + name) == Some(name),
        m.len() == 0 || m[0] != '@' ==> ref_name(m) is None,
        ref_name(m) == Some(name) ==> m == seq!['@'] + name,
{
    assert((seq!['@'] + name).skip(1) =~= name);
    if ref_name(m) == Some(name) {
        assert(m =~= seq!['@'] + m.skip(1));
    }
}

/// None of the members is a reference.
pub open spec fn all_plain(list: Seq<Seq<char>>) -> bool {
    forall|i: int| 0 <= i < list.len() ==> (#[trigger] list[i]).len() == 0 || list[i][0] != '@'
}

proof fn lemma_plain_walk(
    g: GroupsView,
    ns: Seq<char>,
    list: Seq<Seq<char>>,
    rest: Seq<Seq<char>>,
    seen: Set<KeyView>,
    keep: bool,
)
    requires
        g.dom().finite(),
        all_plain(list),
    ensures
        walk(g, ns, list + rest, seen, keep) == list + walk(g, ns, rest, seen, keep),
    decreases list.len(),
{
    if list.len() == 0 {
        assert(list + rest =~= rest);
        assert(list + walk(g, ns, rest, seen, keep) =~= walk(g, ns, rest, seen, keep));
    } else {
        let few = list.drop_first();
        let all = list + rest;
        assert(list[0].len() == 0 || list[0][0] != '@');
        assert(all[0] == list[0]);
        assert(all.drop_first() =~= few + rest);
        assert forall|i: int| 0 <= i < few.len() implies (#[trigger] few[i]).len() == 0 || few[i][0]
            != '@' by {
            assert(few[i] == list[i + 1]);
        }
        lemma_plain_walk(g, ns, few, rest, seen, keep);
        assert(list =~= seq![list[0]] + few);
        assert(walk(g, ns, all, seen, keep) == seq![list[0]] + walk(
            g,
            ns,
            all.drop_first(),
            seen,
            keep,
        ));
        assert(seq![list[0]] + (few + walk(g, ns, rest, seen, keep)) =~= list + walk(
            g,
            ns,
            rest,
            seen,
            keep,
        ));
    }
}

proof fn lemma_plain_list(
    g: GroupsView,
    ns: Seq<char>,
    list: Seq<Seq<char>>,
    seen: Set<KeyView>,
    keep: bool,
)
    requires
        g.dom().finite(),
        all_plain(list),
    ensures
        walk(g, ns, list, seen, keep) == list,
{
    lemma_plain_walk(g, ns, list, seq![], seen, keep);
    assert(list + Seq::<Seq<char>>::empty() =~= list);
}

/// A list without references is met as it stands, and a reference to no group is kept or
/// passed over.
pub proof fn law_plain_members_are_met_as_they_stand(
    g: GroupsView,
    ns: Seq<char>,
    a: Seq<Seq<char>>,
    name: Seq<char>,
    b: Seq<Seq<char>>,
    keep: bool,
)
    requires
        g.dom().finite(),
        all_plain(a),
        all_plain(b),
        !g.dom().contains((ns, name)),
    ensures
        walk(g, ns, a, Set::empty(), keep) == a,
        walk(g, ns, a + seq![seq!['@'] + name] + b, Set::empty(), keep) == if keep {
            a + seq![seq!['@'] + name] + b
        } else {
            a + b
        },
{
    let none = Set::<KeyView>::empty();
    let m = seq!['@'] + name;
    lemma_plain_list(g, ns, a, none, keep);
    lemma_plain_list(g, ns, b, none, keep);
    law_references_name_groups(name, m);
    let rest = seq![m] + b;
    assert(a + seq![m] + b =~= a + rest);
    lemma_plain_walk(g, ns, a, rest, none, keep);
    assert(rest[0] == m);
    assert(rest.drop_first() =~= b);
    assert(a + (seq![m] + b) =~= a + seq![m] + b);
}

/// The members of a group stand where it is referred to, the first time that it is; after
/// that a reference to it is passed over.
#[verifier::rlimit(40)]
pub proof fn law_members_stand_for_their_group(
    g: GroupsView,
    ns: Seq<char>,
    a: Seq<Seq<char>>,
    name: Seq<char>,
    b: Seq<Seq<char>>,
    c: Seq<Seq<char>>,
    keep: bool,
)
    requires
        g.dom().finite(),
        all_plain(a),
        all_plain(b),
        all_plain(c),
        g.dom().contains((ns, name)),
        all_plain(g[(ns, name)]),
    ensures
        walk(g, ns, a + seq![seq!['@'] + name] + b, Set::empty(), keep) == a + g[(ns, name)] + b,
        walk(
            g,
            ns,
            a + seq![seq!['@'] + name] + b + seq![seq!['@'] + name] + c,
            Set::empty(),
            keep,
        ) == a + g[(ns, name)] + b + c,
{
    let m = seq!['@'] + name;
    law_references_name_groups(name, m);
    lemma_stands(g, ns, a, name, b, keep);
    lemma_plain_list(g, ns, b, Set::empty().insert((ns, name)), keep);
    let rest = b + (seq![m] + c);
    let one = Set::<KeyView>::empty().insert((ns, name));
    lemma_stands(g, ns, a, name, rest, keep);
    lemma_plain_walk(g, ns, b, seq![m] + c, one, keep);
    lemma_plain_list(g, ns, c, one, keep);
    assert((seq![m] + c)[0] == m);
    assert((seq![m] + c).drop_first() =~= c);
    assert(a + seq![m] + b + seq![m] + c =~= a + seq![m] + rest);
    assert(a + g[(ns, name)] + (b + c) =~= a + g[(ns, name)] + b + c);
}

proof fn lemma_stands(
    g: GroupsView,
    ns: Seq<char>,
    a: Seq<Seq<char>>,
    name: Seq<char>,
    rest: Seq<Seq<char>>,
    keep: bool,
)
    requires
        g.dom().finite(),
        all_plain(a),
        g.dom().contains((ns, name)),
        all_plain(g[(ns, name)]),
    ensures
        walk(g, ns, a + seq![seq!['@'] + name] + rest, Set::empty(), keep) == a + g[(ns, name)]
            + walk(g, ns, rest, Set::empty().insert((ns, name)), keep),
{
    let none = Set::<KeyView>::empty();
    let m = seq!['@'] + name;
    let members = g[(ns, name)];
    let tail = seq![m] + rest;
    law_references_name_groups(name, m);
    assert(a + seq![m] + rest =~= a + tail);
    lemma_plain_walk(g, ns, a, tail, none, keep);
    assert(tail[0] == m);
    assert(tail.drop_first() =~= rest);
    lemma_unseen(g, none, (ns, name));
    lemma_plain_walk(g, ns, members, rest, none.insert((ns, name)), keep);
    assert(walk(g, ns, tail, none, keep) == walk(
        g,
        ns,
        members + rest,
        none.insert((ns, name)),
        keep,
    ));
    assert(a + (members + walk(g, ns, rest, none.insert((ns, name)), keep)) =~= a + members + walk(
        g,
        ns,
        rest,
        none.insert((ns, name)),
        keep,
    ));
}

/// A list leads to its own members and to what the groups that it refers to lead to, and
/// to nothing else.
pub proof fn law_lists_lead_through_their_groups(
    g: GroupsView,
    ns: Seq<char>,
    list: Seq<Seq<char>>,
    m: Seq<char>,
)
    ensures
        leads(g, ns, list, m) <==> {
            ||| list.contains(m)
            ||| exists|name: Seq<char>|
                {
                    &&& list.contains(seq!['@'] + name)
                    &&& #[trigger] g.dom().contains((ns, name))
                    &&& leads(g, ns, g[(ns, name)], m)
                }
        },
{
    if leads(g, ns, list, m) && !list.contains(m) {
        let p = choose|p: Seq<Seq<char>>|
            {
                &&& #[trigger] path(g, ns, p)
                &&& refers(list, p[0])
                &&& g.dom().contains((ns, p.last()))
                &&& g[(ns, p.last())].contains(m)
            };
        let name = p[0];
        let i = choose|i: int| 0 <= i < list.len() && ref_name(#[trigger] list[i]) == Some(name);
        law_references_name_groups(name, list[i]);
        assert(list.contains(seq!['@'] + name));
        if p.len() > 1 {
            assert(edge(g, ns, p[0], p[1]));
            let q = p.drop_first();
            assert forall|i: int, j: int|
                #![trigger q[i], q[j]]
                0 <= i && j == i + 1 && j < q.len() implies edge(g, ns, q[i], q[j]) by {
                assert(edge(g, ns, p[i + 1], p[j + 1]));
            }
            assert(path(g, ns, q));
            assert(q.last() == p.last());
            assert(refers(g[(ns, name)], q[0]));
        }
        assert(leads(g, ns, g[(ns, name)], m));
        assert(g.dom().contains((ns, name)));
    }
    if exists|name: Seq<char>|
        {
            &&& list.contains(seq!['@'] + name)
            &&& #[trigger] g.dom().contains((ns, name))
            &&& leads(g, ns, g[(ns, name)], m)
        } {
        let name = choose|name: Seq<char>|
            {
                &&& list.contains(seq!['@'] + name)
                &&& #[trigger] g.dom().contains((ns, name))
                &&& leads(g, ns, g[(ns, name)], m)
            };
        let i = choose|i: int| 0 <= i < list.len() && list[i] == seq!['@'] + name;
        law_references_name_groups(name, list[i]);
        assert(ref_name(list[i]) == Some(name));
        assert(refers(list, name));
        let members = g[(ns, name)];
        if members.contains(m) {
            let p = seq![name];
            assert(path(g, ns, p));
            assert(p.last() == name);
        } else {
            let q = choose|p: Seq<Seq<char>>|
                {
                    &&& #[trigger] path(g, ns, p)
                    &&& refers(members, p[0])
                    &&& g.dom().contains((ns, p.last()))
                    &&& g[(ns, p.last())].contains(m)
                };
            let p = seq![name] + q;
            assert forall|i: int, j: int|
                #![trigger p[i], p[j]]
                0 <= i && j == i + 1 && j < p.len() implies edge(g, ns, p[i], p[j]) by {
                if i > 0 {
                    assert(edge(g, ns, q[i - 1], q[j - 1]));
                } else {
                    assert(p[1] == q[0]);
                }
            }
            assert(path(g, ns, p));
            assert(p.last() == q.last());
        }
    }
}

/// Reaching is by references alone: a name reaches itself, and whatever a name reaches
/// that its group refers to.
pub proof fn law_names_reach_what_they_refer_to(
    g: GroupsView,
    ns: Seq<char>,
    a: Seq<char>,
    b: Seq<char>,
)
    ensures
        reach(g, ns, a, a),
        reach(g, ns, a, b) <==> a == b || exists|t: Seq<char>|
            {
                &&& g.dom().contains((ns, a))
                &&& g[(ns, a)].contains(seq!['@'] + t)
                &&& #[trigger] reach(g, ns, t, b)
            },
{
    assert(path(g, ns, seq![a]));
    assert(seq![a][0] == a && seq![a].last() == a);
    if reach(g, ns, a, b) && a != b {
        let p = choose|p: Seq<Seq<char>>| #[trigger] path(g, ns, p) && p[0] == a && p.last() == b;
        let q = p.drop_first();
        assert(p.len() > 1);
        assert(edge(g, ns, p[0], p[1]));
        assert forall|i: int, j: int|
            #![trigger q[i], q[j]]
            0 <= i && j == i + 1 && j < q.len() implies edge(g, ns, q[i], q[j]) by {
            assert(edge(g, ns, p[i + 1], p[j + 1]));
        }
        assert(path(g, ns, q));
        let t = p[1];
        assert(q[0] == t && q.last() == b);
        assert(reach(g, ns, t, b));
        let members = g[(ns, a)];
        let i = choose|i: int| 0 <= i < members.len() && ref_name(#[trigger] members[i]) == Some(t);
        law_references_name_groups(t, members[i]);
        assert(members.contains(seq!['@'] + t));
    }
    if exists|t: Seq<char>|
        {
            &&& g.dom().contains((ns, a))
            &&& g[(ns, a)].contains(seq!['@'] + t)
            &&& #[trigger] reach(g, ns, t, b)
        } {
        let t = choose|t: Seq<char>|
            {
                &&& g.dom().contains((ns, a))
                &&& g[(ns, a)].contains(seq!['@'] + t)
                &&& #[trigger] reach(g, ns, t, b)
            };
        let members = g[(ns, a)];
        let i = choose|i: int| 0 <= i < members.len() && members[i] == seq!['@'] + t;
        law_references_name_groups(t, members[i]);
        assert(refers(members, t));
        let q = choose|p: Seq<Seq<char>>| #[trigger] path(g, ns, p) && p[0] == t && p.last() == b;
        let p = seq![a] + q;
        assert forall|i: int, j: int|
            #![trigger p[i], p[j]]
            0 <= i && j == i + 1 && j < p.len() implies edge(g, ns, p[i], p[j]) by {
            if i > 0 {
                assert(edge(g, ns, q[i - 1], q[j - 1]));
            } else {
                assert(p[1] == q[0]);
            }
        }
        assert(path(g, ns, p));
        assert(p[0] == a && p.last() == b);
    }
}

/// A group closes a circle exactly where one of its members refers to a name that leads
/// back to it, and it does so by itself.
pub proof fn law_circles_are_closed_by_references(
    g: GroupsView,
    ns: Seq<char>,
    name: Seq<char>,
    members: Seq<Seq<char>>,
)
    ensures
        members.contains(seq!['@'] + name) ==> closes(g, ns, name, members),
        all_plain(members) ==> !closes(g, ns, name, members),
        closes(g, ns, name, members) <==> exists|t: Seq<char>|
            members.contains(seq!['@'] + t) && #[trigger] reach(g, ns, t, name),
{
    law_names_reach_what_they_refer_to(g, ns, name, name);
    if exists|t: Seq<char>| members.contains(seq!['@'] + t) && #[trigger] reach(g, ns, t, name) {
        let t = choose|t: Seq<char>|
            members.contains(seq!['@'] + t) && #[trigger] reach(g, ns, t, name);
        let i = choose|i: int| 0 <= i < members.len() && members[i] == seq!['@'] + t;
        law_references_name_groups(t, members[i]);
        assert(ref_name(members[i]) == Some(t));
        assert(refers(members, t));
    }
    if closes(g, ns, name, members) {
        let t = choose|t: Seq<char>| #[trigger] refers(members, t) && reach(g, ns, t, name);
        let i = choose|i: int| 0 <= i < members.len() && ref_name(#[trigger] members[i]) == Some(t);
        law_references_name_groups(t, members[i]);
        assert(members.contains(seq!['@'] + t));
    }
}

} // verus!
