//! The group graph behind `@refs`. A group is a name and a member list; a member
//! is either a source (handed to `identity::encode_member` unchanged) or `@name`,
//! a reference to another group.
//!
//! The walk is total: an unknown ref stands for itself, a label that nothing on
//! the wire presents, and a revisited group is skipped -- which also makes a cycle
//! just terminate instead of failing, so insertion never judges the shape.

use crate::groups::{walk, Groups, GroupsView, KeyView};
use crate::text::texts;
use vstd::prelude::*;

verus! {

/// All groups stand in one namespace, the unnamed one.
pub open spec fn key_of(name: Seq<char>) -> KeyView {
    (seq![], name)
}

/// What a list of members expands to.
pub open spec fn expanded(g: GroupsView, list: Seq<Seq<char>>) -> Seq<Seq<char>> {
    walk(g, seq![], list, Set::empty(), true)
}

#[derive(Debug)]
pub struct Graph {
    groups: Groups,
}

impl View for Graph {
    type V = GroupsView;

    closed spec fn view(&self) -> GroupsView {
        self.groups@
    }
}

impl Default for Graph {
    fn default() -> (r: Self)
        ensures
            r@ == Map::<KeyView, Seq<Seq<char>>>::empty(),
    {
        Graph { groups: Groups::default() }
    }
}

impl Graph {
    /// Insert or replace a group. Any member list is accepted; the walk sorts it
    /// out.
    pub fn upsert(&mut self, name: String, members: Vec<String>)
        ensures
            final(self)@ == old(self)@.insert(key_of(name@), texts(members@)),
    {
        let ns = String::new();
        assert(ns@ =~= seq![]);
        self.groups.insert(ns, name, members);
    }

    /// Walk from `entry`, collecting literals; `@refs` expand, revisits skip, and
    /// an unknown ref is kept as it is. Duplicates are left in -- a set of ranges
    /// collapses overlaps anyway.
    pub fn resolve(&self, entry: &[String]) -> (r: Vec<String>)
        ensures
            self@.dom().finite(),
            texts(r@) == expanded(self@, texts(entry@)),
    {
        let ns = String::new();
        assert(ns@ =~= seq![]);
        self.groups.walk(&ns, entry, true)
    }
}

} // verus!
