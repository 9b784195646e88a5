//! Filter configs: the identity table, and the rules judged against it.
//!
//! The TABLE -- ula, sites, groups -- says how a header encodes and what names
//! mean. A config carries its own, or subscribes to one that a `table` filter
//! publishes for the whole process, and then carries RULES ONLY (`allow` or
//! `scopes`), expanded again whenever the published table moves.
//!
//! A scope may name several hostnames sharing one list.
//!
//! Rule entries are the source grammar -- CIDRs of either family, labels,
//! `@group` and `!site` refs -- see `graph` for the walk and
//! `identity::encode_member` for how each source becomes a CIDR.
//!
//! Deny by default, with no knobs. An identity nothing covers is refused; a rule
//! that cannot expand yet covers nothing.

use crate::cidr::{within, CidrSet, Range};
use crate::graph::{expanded, Graph};
use crate::groups::{
    is_leaf, law_references_name_groups, law_walk_finds_all_and_only, leads, KeyView,
};
use crate::identity::{encoded, encoded_bare, names, synthesized, Scheme, SchemeView};
use crate::json::{named, Named};
use crate::meeting::admits;
use crate::ppv2::HeaderView;
use crate::prefix::be;
use crate::raw::{
    config_read, read, read_table, scope_views, table_read, Raw, RawScope, RawScopeView, RawView,
};
pub use crate::sni::{match_scopes, Pattern, Scope};
use crate::sni::{
    law_entries_decide_the_scope, law_entry_claims_its_own_name, pattern_of, patterns, reads,
    scope_of, PatternView,
};
pub use crate::table::Table;
use crate::table::{
    build_table, encoded_list, groups_made, law_list_admits_exactly_its_members,
    law_lists_expand_member_by_member, law_members_reach_through_groups, list_made,
    member_admits, opt_text, rule_admits, rules, table_error, table_is, TableView,
};
use crate::text::{copy_of, same, texts};
use std::sync::Arc;
use vstd::prelude::*;
use vstd::utf8::encode_utf8;

verus! {

// --- judging ------------------------------------------------------------------

/// Deny by default: false unless a list covers this identity. A name that no scope
/// claims is covered by none, whatever the flat list says.
pub open spec fn permitted(
    allow: Seq<Range>,
    scopes: Option<Seq<Scope>>,
    sni: Seq<u8>,
    addr: u128,
) -> bool {
    match scopes {
        None => within(allow, addr),
        Some(list) => match scope_of(list, sni) {
            Some(i) => within(list[i].allow@, addr),
            None => false,
        },
    }
}

pub open spec fn scope_list(scopes: Option<Vec<Scope>>) -> Option<Seq<Scope>> {
    match scopes {
        Some(list) => Some(list@),
        None => None,
    }
}

/// The names of a scope.
pub open spec fn patterns_of(sni: Seq<Seq<char>>) -> Seq<PatternView> {
    sni.map_values(|t: Seq<char>| pattern_of(t))
}

pub open spec fn scope_made(t: TableView, raw: RawScopeView, s: Scope) -> bool {
    patterns(s.names@) == patterns_of(raw.sni) && list_made(t, raw.allow, s.allow@)
}

/// The scopes are those written, judged against the table.
pub open spec fn scopes_made(
    t: TableView,
    raw: Option<Seq<RawScopeView>>,
    scopes: Option<Seq<Scope>>,
) -> bool {
    match (raw, scopes) {
        (None, None) => true,
        (Some(rs), Some(list)) => {
            &&& rs.len() == list.len()
            &&& forall|i: int| 0 <= i < rs.len() ==> scope_made(t, rs[i], #[trigger] list[i])
        },
        _ => false,
    }
}

/// What is wrong with the first scope that does not expand.
pub open spec fn scopes_error(t: TableView, rs: Seq<RawScopeView>) -> Option<Seq<char>>
    decreases rs.len(),
{
    if rs.len() == 0 {
        None
    } else {
        match scopes_error(t, rs.drop_last()) {
            Some(e) => Some(e),
            None => match rules(t, rs.last().allow) {
                Ok(_) => None,
                Err(e) => Some(e),
            },
        }
    }
}

/// Why rules do not expand against a table.
pub open spec fn judge_error(
    t: TableView,
    allow: Seq<Seq<char>>,
    scopes: Option<Seq<RawScopeView>>,
) -> Option<Seq<char>> {
    match rules(t, allow) {
        Err(e) => Some(e),
        Ok(_) => match scopes {
            None => None,
            Some(rs) => scopes_error(t, rs),
        },
    }
}

/// Rules expanded against one specific table.
#[derive(Debug)]
pub struct Judged {
    pub allow: CidrSet,
    /// None = flat-list mode. Some([]) = SNI mode, nothing claimed, deny all -- the
    /// appendable base state.
    pub scopes: Option<Vec<Scope>>,
}

/// The list and the scopes are what the rules come to under the table.
pub open spec fn judged_as(
    t: TableView,
    allow: Seq<Seq<char>>,
    scopes: Option<Seq<RawScopeView>>,
    set: Seq<Range>,
    made: Option<Seq<Scope>>,
) -> bool {
    list_made(t, allow, set) && scopes_made(t, scopes, made)
}

/// Nothing is covered, in the mode that the rules are in.
pub open spec fn denies_all(scoped: bool, set: Seq<Range>, made: Option<Seq<Scope>>) -> bool {
    &&& set == Seq::<Range>::empty()
    &&& made == if scoped {
        Some(Seq::<Scope>::empty())
    } else {
        None
    }
}

/// A judgement that covers nothing permits nothing.
pub proof fn law_deny_all_denies(
    scoped: bool,
    set: Seq<Range>,
    made: Option<Seq<Scope>>,
    sni: Seq<u8>,
    addr: u128,
)
    requires
        denies_all(scoped, set, made),
    ensures
        !permitted(set, made, sni, addr),
{
    if scoped {
        crate::sni::law_no_scope_claims_nothing(sni);
    }
}

/// With scopes, the flat list is never consulted.
pub proof fn law_scopes_replace_the_flat_list(
    a: Seq<Range>,
    b: Seq<Range>,
    scopes: Seq<Scope>,
    sni: Seq<u8>,
    addr: u128,
)
    ensures
        permitted(a, Some(scopes), sni, addr) == permitted(b, Some(scopes), sni, addr),
        scope_of(scopes, sni) is None ==> !permitted(a, Some(scopes), sni, addr),
{
}

/// Without scopes, the server name makes no difference.
pub proof fn law_flat_list_ignores_sni(allow: Seq<Range>, a: Seq<u8>, b: Seq<u8>, addr: u128)
    ensures
        permitted(allow, None, a, addr) == permitted(allow, None, b, addr),
{
}

/// Judge an identity by an expanded list or by expanded scopes.
fn covers(allow: &CidrSet, scopes: &Option<Vec<Scope>>, sni: &[u8], addr: u128) -> (r: bool)
    ensures
        r == permitted(allow@, scope_list(*scopes), sni@, addr),
{
    match scopes {
        None => allow.contains(addr),
        Some(list) => match match_scopes(list, sni) {
            Some(set) => set.contains(addr),
            None => false,
        },
    }
}

impl Judged {
    pub fn deny_all(scoped: bool) -> (r: Judged)
        ensures
            denies_all(scoped, r.allow@, scope_list(r.scopes)),
    {
        let scopes = if scoped {
            let none: Vec<Scope> = Vec::new();
            Some(none)
        } else {
            None
        };
        Judged { allow: CidrSet::default(), scopes }
    }

    /// Deny by default: false unless a list covers this identity.
    pub fn permits(&self, sni: &[u8], addr: u128) -> (r: bool)
        ensures
            r == permitted(self.allow@, scope_list(self.scopes), sni@, addr),
    {
        covers(&self.allow, &self.scopes, sni, addr)
    }

    pub fn permits_unscoped(&self, addr: u128) -> (r: bool)
        ensures
            r == permitted(self.allow@, scope_list(self.scopes), seq![], addr),
    {
        let none: [u8; 0] = [];
        assert(none@ =~= seq![]);
        self.permits(&none, addr)
    }
}

proof fn lemma_scopes_error_prefix(t: TableView, rs: Seq<RawScopeView>, n: int)
    requires
        0 <= n <= rs.len(),
        scopes_error(t, rs.take(n)) is Some,
    ensures
        scopes_error(t, rs) == scopes_error(t, rs.take(n)),
    decreases rs.len(),
{
    if n == rs.len() {
        assert(rs.take(n) =~= rs);
    } else {
        assert(rs.drop_last().take(n) =~= rs.take(n));
        lemma_scopes_error_prefix(t, rs.drop_last(), n);
    }
}

fn parse_names(sni: &[String]) -> (r: Vec<Pattern>)
    ensures
        patterns(r@) == patterns_of(texts(sni@)),
{
    let mut out: Vec<Pattern> = Vec::new();
    let mut i: usize = 0;
    while i < sni.len()
        invariant
            i <= sni@.len(),
            out@.len() == i,
            forall|j: int| 0 <= j < i ==> (#[trigger] out@[j])@ == pattern_of(sni@[j]@),
        decreases sni@.len() - i,
    {
        out.push(Pattern::parse(&sni[i]));
        i += 1;
    }
    assert(patterns(out@) =~= patterns_of(texts(sni@)));
    out
}

fn judge_scopes(table: &Table, raw: &[RawScope]) -> (r: Result<Vec<Scope>, String>)
    ensures
        match r {
            Ok(list) => {
                &&& scopes_error(table@, scope_views(raw@)) is None
                &&& scopes_made(table@, Some(scope_views(raw@)), Some(list@))
            },
            Err(e) => scopes_error(table@, scope_views(raw@)) == Some(e@),
        },
{
    let ghost all = scope_views(raw@);
    let mut out: Vec<Scope> = Vec::new();
    let mut i: usize = 0;
    while i < raw.len()
        invariant
            i <= raw@.len(),
            all == scope_views(raw@),
            scopes_error(table@, all.take(i as int)) is None,
            out@.len() == i,
            forall|j: int| 0 <= j < i ==> scope_made(table@, all[j], #[trigger] out@[j]),
        decreases raw@.len() - i,
    {
        assert(all.take(i + 1).drop_last() =~= all.take(i as int));
        assert(all.take(i + 1).last() == raw@[i as int]@);
        match table.resolve(&raw[i].allow) {
            Ok(allow) => {
                let scope = Scope { names: parse_names(&raw[i].sni), allow };
                assert(scope_made(table@, all[i as int], scope));
                out.push(scope);
            },
            Err(e) => {
                proof {
                    lemma_scopes_error_prefix(table@, all, i + 1);
                }
                return Err(e);
            },
        }
        i += 1;
    }
    assert(all.take(i as int) =~= all);
    Ok(out)
}

/// Expand rules against a table.
pub fn judge(table: &Table, allow: &[String], scopes: &Option<Vec<RawScope>>) -> (r: Result<
    Judged,
    String,
>)
    ensures
        match r {
            Ok(j) => {
                &&& judge_error(table@, texts(allow@), raw_scopes(*scopes)) is None
                &&& judged_as(
                    table@,
                    texts(allow@),
                    raw_scopes(*scopes),
                    j.allow@,
                    scope_list(j.scopes),
                )
            },
            Err(e) => judge_error(table@, texts(allow@), raw_scopes(*scopes)) == Some(e@),
        },
{
    let allow = match table.resolve(allow) {
        Ok(set) => set,
        Err(e) => {
            return Err(e);
        },
    };
    let scopes = match scopes {
        None => None,
        Some(list) => match judge_scopes(table, list) {
            Ok(made) => Some(made),
            Err(e) => {
                return Err(e);
            },
        },
    };
    Ok(Judged { allow, scopes })
}

pub open spec fn raw_scopes(scopes: Option<Vec<RawScope>>) -> Option<Seq<RawScopeView>> {
    match scopes {
        Some(list) => Some(scope_views(list@)),
        None => None,
    }
}

/// From the rule to the wire: where what a member encodes to holds what a header
/// synthesizes to, a flat list that leads to the member permits the header, whatever
/// the server name.
pub proof fn law_flat_list_permits_the_header(
    t: TableView,
    s: SchemeView,
    list: Seq<Seq<char>>,
    rs: Seq<Range>,
    m: Seq<char>,
    h: HeaderView,
    sni: Seq<u8>,
)
    requires
        t.scheme == Some(s),
        t.groups.dom().finite(),
        list_made(t, list, rs),
        is_leaf(t.groups, seq![], m, true),
        leads(t.groups, seq![], list, m),
        m != "!*"@,
        admits(encoded(s, m), synthesized(s, h)),
    ensures
        permitted(rs, None, sni, be(synthesized(s, h)) as u128),
{
    let x = be(synthesized(s, h)) as u128;
    let ts = seq![encoded(s, m)];
    assert(rule_admits(ts[0], x));
    assert(member_admits(t.scheme, m, x));
    law_members_reach_through_groups(t, list, rs, m, x);
}

// --- configs ------------------------------------------------------------------

/// A filter's config: its table and its rules, as written and expanded.
#[derive(Debug)]
pub struct Config {
    /// Empty for a subscriber.
    pub table: Arc<Table>,
    pub allow: CidrSet,
    /// None = flat-list mode. Some([]) = SNI mode, nothing claimed, deny all.
    pub scopes: Option<Vec<Scope>>,
    pub raw_allow: Vec<String>,
    pub raw_scopes: Option<Vec<RawScope>>,
    /// The rules are judged against the published table.
    pub subscribe: bool,
    /// The publication that the rules were last expanded against.
    pub generation: Option<u64>,
}

/// What is wrong with a config that has been read.
pub open spec fn config_error(raw: RawView) -> Option<Seq<char>> {
    if raw.subscribe {
        if raw.ula is Some || raw.sites.len() > 0 || raw.groups.len() > 0 {
            Some("`subscribe` takes the published table; drop `ula`, `sites` and `groups`"@)
        } else {
            None
        }
    } else {
        match table_error(raw.ula, raw.sites, raw.groups) {
            Some(e) => Some(e),
            // With a scheme to encode into, every list expands.
            None => if raw.ula is Some {
                None
            } else {
                judge_error(
                    TableView { scheme: None, groups: groups_made(raw.groups) },
                    raw.allow,
                    raw.scopes,
                )
            },
        }
    }
}

/// The config keeps the rules as they were written.
pub open spec fn keeps_rules(c: Config, raw: RawView) -> bool {
    &&& texts(c.raw_allow@) == raw.allow
    &&& raw_scopes(c.raw_scopes) == raw.scopes
    &&& c.subscribe == raw.subscribe
}

/// The config is the one written.
pub open spec fn config_is(c: Config, raw: RawView) -> bool {
    &&& keeps_rules(c, raw)
    &&& c.generation is None
    &&& if raw.subscribe {
        &&& c.table@.scheme is None
        &&& c.table@.groups == Map::<KeyView, Seq<Seq<char>>>::empty()
        &&& denies_all(raw.scopes is Some, c.allow@, scope_list(c.scopes))
    } else {
        &&& table_is(c.table@, raw.ula, raw.sites, raw.groups)
        &&& judged_as(c.table@, raw.allow, raw.scopes, c.allow@, scope_list(c.scopes))
    }
}

/// A subscriber's config: until a table is published everything denies.
fn subscribed(raw: Raw) -> (r: Result<Config, String>)
    requires
        raw.subscribe,
    ensures
        match r {
            Ok(c) => config_error(raw@) is None && config_is(c, raw@),
            Err(e) => config_error(raw@) == Some(e@),
        },
{
    if raw.ula.is_some() || raw.sites.len() > 0 || raw.groups.len() > 0 {
        return Err(
            String::from_str(
                "`subscribe` takes the published table; drop `ula`, `sites` and `groups`",
            ),
        );
    }
    let table = Arc::new(Table { scheme: None, groups: Graph::default() });
    let denied = Judged::deny_all(raw.scopes.is_some());
    Ok(
        Config {
            table,
            allow: denied.allow,
            scopes: denied.scopes,
            raw_allow: raw.allow,
            raw_scopes: raw.scopes,
            subscribe: true,
            generation: None,
        },
    )
}

/// The config with this table.
fn with_table(raw: Raw, table: Arc<Table>) -> (r: Result<Config, String>)
    requires
        !raw.subscribe,
        table_error(raw@.ula, raw@.sites, raw@.groups) is None,
        table_is(table@, raw@.ula, raw@.sites, raw@.groups),
    ensures
        match r {
            Ok(c) => config_error(raw@) is None && config_is(c, raw@) && c.table == table,
            Err(e) => config_error(raw@) == Some(e@),
        },
{
    proof {
        if raw.ula is Some {
            lemma_all_expand(table@, raw@.allow, raw@.scopes);
        }
    }
    match judge(&table, &raw.allow, &raw.scopes) {
        Ok(j) => Ok(
            Config {
                table,
                allow: j.allow,
                scopes: j.scopes,
                raw_allow: raw.allow,
                raw_scopes: raw.scopes,
                subscribe: false,
                generation: None,
            },
        ),
        Err(e) => Err(e),
    }
}

/// With a scheme to encode into, every list expands.
proof fn lemma_all_expand(
    t: TableView,
    allow: Seq<Seq<char>>,
    scopes: Option<Seq<RawScopeView>>,
)
    requires
        t.scheme is Some,
    ensures
        judge_error(t, allow, scopes) is None,
{
    lemma_encodes(t.scheme, expanded(t.groups, allow));
    if let Some(rs) = scopes {
        lemma_scopes_expand(t, rs);
    }
}

proof fn lemma_encodes(scheme: Option<SchemeView>, ms: Seq<Seq<char>>)
    requires
        scheme is Some,
    ensures
        encoded_list(scheme, ms) is Ok,
    decreases ms.len(),
{
    if ms.len() > 0 {
        lemma_encodes(scheme, ms.drop_last());
    }
}

proof fn lemma_scopes_expand(t: TableView, rs: Seq<RawScopeView>)
    requires
        t.scheme is Some,
    ensures
        scopes_error(t, rs) is None,
    decreases rs.len(),
{
    if rs.len() > 0 {
        lemma_scopes_expand(t, rs.drop_last());
        lemma_encodes(t.scheme, expanded(t.groups, rs.last().allow));
    }
}

/// The config of what has been read.
pub fn assemble(raw: Raw) -> (r: Result<Config, String>)
    ensures
        match r {
            Ok(c) => config_error(raw@) is None && config_is(c, raw@),
            Err(e) => config_error(raw@) == Some(e@),
        },
{
    if raw.subscribe {
        return subscribed(raw);
    }
    match build_table(&raw.ula, &raw.sites, &raw.groups) {
        Ok(t) => with_table(raw, Arc::new(t)),
        Err(e) => Err(e),
    }
}

/// The text is a config that holds together, and this is it.
pub open spec fn parses_to(text: Seq<char>, c: Config) -> bool {
    &&& config_read(text) matches Ok(raw)
    &&& config_error(raw) is None
    &&& config_is(c, raw)
}

/// The text is no such config, and this is why.
pub open spec fn fails_with(text: Seq<char>, e: Seq<char>) -> bool {
    match config_read(text) {
        Err(wrong) => e == wrong,
        Ok(raw) => config_error(raw) == Some(e),
    }
}

/// A text that parses is never refused, and one that is refused never parses.
pub proof fn law_parsing_is_decided(text: Seq<char>, c: Config, e: Seq<char>)
    requires
        parses_to(text, c),
    ensures
        !fails_with(text, e),
{
}

/// Parse a filter's config.
pub fn parse(text: &str) -> (r: Result<Config, String>)
    ensures
        match r {
            Ok(c) => parses_to(text@, c),
            Err(e) => fails_with(text@, e@),
        },
{
    match read(text) {
        Ok(raw) => assemble(raw),
        Err(e) => Err(e),
    }
}

/// The table of what has been read: it must have a `ula`, or carrying it would deny
/// everything.
pub fn assemble_table(raw: &Raw) -> (r: Result<Arc<Table>, String>)
    ensures
        match r {
            Ok(t) => {
                &&& raw@.ula is Some
                &&& table_error(raw@.ula, raw@.sites, raw@.groups) is None
                &&& table_is(t@, raw@.ula, raw@.sites, raw@.groups)
            },
            Err(e) => table_failure(raw@) == Some(e@),
        },
{
    if raw.ula.is_none() {
        return Err(String::from_str("missing field `ula`"));
    }
    match build_table(&raw.ula, &raw.sites, &raw.groups) {
        Ok(t) => Ok(Arc::new(t)),
        Err(e) => Err(e),
    }
}

/// Why what has been read is no table.
pub open spec fn table_failure(raw: RawView) -> Option<Seq<char>> {
    if raw.ula is None {
        Some("missing field `ula`"@)
    } else {
        table_error(raw.ula, raw.sites, raw.groups)
    }
}

/// Parse a carrier's config: the whole identity table, nothing else.
pub fn parse_table(text: &str) -> (r: Result<Arc<Table>, String>)
    ensures
        match r {
            Ok(t) => {
                &&& table_read(text@) matches Ok(raw)
                &&& table_failure(raw) is None
                &&& table_is(t@, raw.ula, raw.sites, raw.groups)
            },
            Err(e) => match table_read(text@) {
                Err(wrong) => e@ == wrong,
                Ok(raw) => table_failure(raw) == Some(e@),
            },
        },
{
    match read_table(text) {
        Ok(raw) => assemble_table(&raw),
        Err(e) => Err(e),
    }
}

impl Config {
    /// How a header is encoded, where the config says so itself.
    pub fn scheme(&self) -> (r: Option<&Scheme>)
        ensures
            match r {
                Some(s) => self.table@.scheme == Some(s@),
                None => self.table@.scheme is None,
            },
    {
        match &self.table.scheme {
            Some(s) => Some(s),
            None => None,
        }
    }

    /// How a header is encoded: a subscriber goes by the published table, and every
    /// other config by its own.
    pub open spec fn goes_by(self, table: Option<&Table>) -> Option<SchemeView> {
        if !self.subscribe {
            self.table@.scheme
        } else {
            match table {
                Some(t) => t@.scheme,
                None => None,
            }
        }
    }

    /// The scheme that the config goes by.
    pub fn scheme_with<'a>(&'a self, table: Option<&'a Table>) -> (r: Option<&'a Scheme>)
        ensures
            match r {
                Some(s) => self.goes_by(table) == Some(s@),
                None => self.goes_by(table) is None,
            },
    {
        if !self.subscribe {
            return self.scheme();
        }
        match table {
            Some(t) => match &t.scheme {
                Some(s) => Some(s),
                None => None,
            },
            None => None,
        }
    }

    /// Deny by default, judged by the rules as last expanded.
    pub fn permits(&self, sni: &[u8], addr: u128) -> (r: bool)
        ensures
            r == permitted(self.allow@, scope_list(self.scopes), sni@, addr),
    {
        covers(&self.allow, &self.scopes, sni, addr)
    }

    pub fn permits_unscoped(&self, addr: u128) -> (r: bool)
        ensures
            r == permitted(self.allow@, scope_list(self.scopes), seq![], addr),
    {
        let none: [u8; 0] = [];
        assert(none@ =~= seq![]);
        self.permits(&none, addr)
    }

    /// The pure expansion of the rules against a table.
    pub fn judge_against(&self, table: &Table) -> (r: Result<Judged, String>)
        ensures
            match r {
                Ok(j) => {
                    &&& judge_error(
                        table@,
                        texts(self.raw_allow@),
                        raw_scopes(self.raw_scopes),
                    ) is None
                    &&& judged_as(
                        table@,
                        texts(self.raw_allow@),
                        raw_scopes(self.raw_scopes),
                        j.allow@,
                        scope_list(j.scopes),
                    )
                },
                Err(e) => judge_error(
                    table@,
                    texts(self.raw_allow@),
                    raw_scopes(self.raw_scopes),
                ) == Some(e@),
            },
    {
        judge(table, &self.raw_allow, &self.raw_scopes)
    }

    /// Follow the published table: a subscriber expands its rules again when the
    /// table has moved. Rules that do not expand leave deny-all -- never a stale
    /// allow -- and the reason is handed back for the log.
    pub fn refresh(&mut self, generation: u64, table: Option<&Table>) -> (r: Option<String>)
        ensures
            final(self).table == old(self).table,
            final(self).raw_allow == old(self).raw_allow,
            final(self).raw_scopes == old(self).raw_scopes,
            final(self).subscribe == old(self).subscribe,
            tracks(*old(self), generation, view_of(table)) ==> current(
                *final(self),
                generation,
                view_of(table),
            ),
            !old(self).subscribe || old(self).generation == Some(generation) ==> *final(self)
                == *old(self) && r is None,
            old(self).subscribe && old(self).generation != Some(generation) ==> {
                let allow = texts(old(self).raw_allow@);
                let scopes = raw_scopes(old(self).raw_scopes);
                let set = final(self).allow@;
                let made = scope_list(final(self).scopes);
                &&& final(self).generation == Some(generation)
                &&& judged_by(*final(self), view_of(table))
                &&& match table {
                    None => denies_all(scopes is Some, set, made) && r is None,
                    Some(t) => match judge_error(t@, allow, scopes) {
                        None => judged_as(t@, allow, scopes, set, made) && r is None,
                        Some(e) => {
                            &&& denies_all(scopes is Some, set, made)
                            &&& r matches Some(why)
                            &&& why@ == e
                        },
                    },
                }
            },
    {
        if !self.subscribe || self.generation == Some(generation) {
            return None;
        }
        let mut why: Option<String> = None;
        let judged = match table {
            None => Judged::deny_all(self.raw_scopes.is_some()),
            Some(t) => match self.judge_against(t) {
                Ok(j) => j,
                Err(e) => {
                    why = Some(e);
                    Judged::deny_all(self.raw_scopes.is_some())
                },
            },
        };
        self.allow = judged.allow;
        self.scopes = judged.scopes;
        self.generation = Some(generation);
        why
    }

    // --- what the validators need to see ----------------------------------------

    /// The config brings its own table, or none, rather than following a carrier.
    pub fn carries_table(&self) -> (r: bool)
        ensures
            r == !self.subscribe,
    {
        !self.subscribe
    }

    pub fn has_allow(&self) -> (r: bool)
        ensures
            r == (self.raw_allow@.len() > 0),
    {
        self.raw_allow.len() > 0
    }

    pub fn has_scopes(&self) -> (r: bool)
        ensures
            r == self.raw_scopes is Some,
    {
        self.raw_scopes.is_some()
    }

    /// A scope with no `sni` can never match -- dead config.
    pub fn has_nameless_scope(&self) -> (r: bool)
        ensures
            r == nameless(raw_scopes(self.raw_scopes)),
    {
        match &self.raw_scopes {
            None => false,
            Some(list) => {
                let ghost views = scope_views(list@);
                let mut i: usize = 0;
                while i < list.len()
                    invariant
                        i <= list@.len(),
                        views == scope_views(list@),
                        raw_scopes(self.raw_scopes) == Some(views),
                        forall|j: int| 0 <= j < i ==> (#[trigger] views[j]).sni.len() > 0,
                    decreases list@.len() - i,
                {
                    assert(views[i as int] == list@[i as int]@);
                    assert(views[i as int].sni.len() == list@[i as int].sni@.len());
                    if list[i].sni.len() == 0 {
                        assert(nameless_among(views));
                        return true;
                    }
                    i += 1;
                }
                false
            },
        }
    }
}

pub open spec fn nameless_among(rs: Seq<RawScopeView>) -> bool {
    exists|i: int| 0 <= i < rs.len() && (#[trigger] rs[i]).sni.len() == 0
}

/// Some scope has no name.
pub open spec fn nameless(scopes: Option<Seq<RawScopeView>>) -> bool {
    scopes matches Some(rs) && nameless_among(rs)
}

// --- the published table ------------------------------------------------------

/// The published table plus a generation, so consumers know when to re-expand.
/// No table until a carrier lands: rules expand to nothing and everything denies.
#[derive(Debug)]
pub struct Published {
    pub generation: u64,
    pub table: Option<Arc<Table>>,
}

/// `Arc::clone`: another handle on the same value.
#[verifier::external_body]
pub(crate) fn share<T>(value: &Arc<T>) -> (r: Arc<T>)
    ensures
        r == *value,
{
    Arc::clone(value)
}

impl Default for Published {
    fn default() -> (r: Self)
        ensures
            r.generation == 0,
            r.table is None,
    {
        Published { generation: 0, table: None }
    }
}

pub open spec fn view_of(table: Option<&Table>) -> Option<TableView> {
    match table {
        Some(t) => Some(t@),
        None => None,
    }
}

impl Published {
    pub open spec fn carried(self) -> Option<TableView> {
        match self.table {
            Some(t) => Some(t@),
            None => None,
        }
    }
}

/// The config's rules are expanded against this table: without one, and where they do
/// not expand, everything denies.
pub open spec fn judged_by(c: Config, table: Option<TableView>) -> bool {
    let allow = texts(c.raw_allow@);
    let scopes = raw_scopes(c.raw_scopes);
    match table {
        Some(t) if judge_error(t, allow, scopes) is None => judged_as(
            t,
            allow,
            scopes,
            c.allow@,
            scope_list(c.scopes),
        ),
        _ => denies_all(scopes is Some, c.allow@, scope_list(c.scopes)),
    }
}

/// A subscriber goes by what is published now.
pub open spec fn current(c: Config, generation: u64, table: Option<TableView>) -> bool {
    c.subscribe ==> c.generation == Some(generation) && judged_by(c, table)
}

/// A subscriber has seen nothing later than what is published now, and if it has seen
/// that, goes by it.
pub open spec fn tracks(c: Config, generation: u64, table: Option<TableView>) -> bool {
    c.subscribe ==> (c.generation matches Some(g) ==> g <= generation && (g == generation
        ==> judged_by(c, table)))
}

/// A config tracks what is published from the start.
pub proof fn law_parsed_tracks(
    text: Seq<char>,
    c: Config,
    generation: u64,
    table: Option<TableView>,
)
    requires
        parses_to(text, c),
    ensures
        tracks(c, generation, table),
{
}

/// A config that goes by what is published now tracks it.
pub proof fn law_current_tracks(c: Config, generation: u64, table: Option<TableView>)
    requires
        current(c, generation, table),
    ensures
        tracks(c, generation, table),
{
}

/// Publishing a table leaves no subscriber that goes by what is published, and none
/// that could be taken for one: each has to look again.
pub proof fn law_publishing_ends_it(c: Config, before: Published, after: Published)
    requires
        tracks(c, before.generation, before.carried()),
        after.generation == before.generation + 1,
    ensures
        tracks(c, after.generation, after.carried()),
        c.subscribe ==> !current(c, after.generation, after.carried()),
{
}

/// Before a table is published, a subscriber that has looked permits nothing.
pub proof fn law_no_table_permits_nothing(c: Config, generation: u64, sni: Seq<u8>, addr: u128)
    requires
        c.subscribe,
        current(c, generation, None),
    ensures
        !permitted(c.allow@, scope_list(c.scopes), sni, addr),
{
    let scoped = raw_scopes(c.raw_scopes) is Some;
    law_deny_all_denies(scoped, c.allow@, scope_list(c.scopes), sni, addr);
}

/// Deliver a new table to every subscriber.
pub fn publish(cell: &mut Published, table: Arc<Table>)
    requires
        old(cell).generation < u64::MAX,
    ensures
        final(cell).generation == old(cell).generation + 1,
        final(cell).table == Some(table),
{
    cell.generation = cell.generation + 1;
    cell.table = Some(table);
}

pub fn published(cell: &Published) -> (r: (u64, Option<Arc<Table>>))
    ensures
        r == (cell.generation, cell.table),
{
    match &cell.table {
        Some(t) => (cell.generation, Some(share(t))),
        None => (cell.generation, None),
    }
}

// --- sharing tables -----------------------------------------------------------

/// The parts of a config that make its table.
#[verifier::ext_equal]
pub struct TableKey {
    pub ula: Option<Seq<char>>,
    pub sites: Seq<Named>,
    pub groups: Seq<Named>,
}

pub open spec fn table_key(raw: RawView) -> TableKey {
    TableKey { ula: raw.ula, sites: raw.sites, groups: raw.groups }
}

/// The tables that a pool holds.
pub type Tables = Map<TableKey, Arc<Table>>;

/// Asking a pool for a table leaves every table that it holds where it is, and adds
/// this one only where there is none yet.
pub open spec fn interned(before: Tables, after: Tables, key: TableKey) -> bool {
    &&& after.dom().contains(key)
    &&& after == if before.dom().contains(key) {
        before
    } else {
        before.insert(key, after[key])
    }
}

/// What parsing a text does to a pool: a config that brings a table of its own asks
/// for it, and nothing else does.
pub open spec fn pooled(before: Tables, after: Tables, text: Seq<char>) -> bool {
    match config_read(text) {
        Ok(raw) => if raw.subscribe || table_error(raw.ula, raw.sites, raw.groups) is Some {
            after == before
        } else {
            interned(before, after, table_key(raw))
        },
        Err(_) => after == before,
    }
}

/// The config has its table from the pool.
pub open spec fn shares(pool: Tables, text: Seq<char>, c: Config) -> bool {
    config_read(text) matches Ok(raw) ==> raw.subscribe || c.table == pool[table_key(
        raw,
    )]
}

#[derive(Debug)]
struct Slot {
    ula: Option<String>,
    sites: Vec<(String, Vec<String>)>,
    groups: Vec<(String, Vec<String>)>,
    table: Arc<Table>,
}

impl Slot {
    spec fn key(self) -> TableKey {
        TableKey { ula: opt_text(self.ula), sites: named(self.sites@), groups: named(self.groups@) }
    }

    spec fn holds(self) -> bool {
        &&& table_error(self.key().ula, self.key().sites, self.key().groups) is None
        &&& table_is(self.table@, self.key().ula, self.key().sites, self.key().groups)
    }
}

/// Tables that have been built, so that listeners with the same table share one.
#[derive(Debug)]
pub struct TablePool {
    slots: Vec<Slot>,
}

/// The tables by their keys.
spec fn tables(slots: Seq<Slot>) -> Tables
    decreases slots.len(),
{
    if slots.len() == 0 {
        Map::empty()
    } else {
        tables(slots.drop_last()).insert(slots.last().key(), slots.last().table)
    }
}

/// No key twice.
spec fn keys_once(slots: Seq<Slot>) -> bool {
    forall|i: int, j: int|
        #![trigger slots[i], slots[j]]
        0 <= i < j < slots.len() ==> slots[i].key() != slots[j].key()
}

proof fn lemma_tables(slots: Seq<Slot>)
    requires
        keys_once(slots),
    ensures
        forall|i: int|
            0 <= i < slots.len() ==> {
                &&& tables(slots).dom().contains((#[trigger] slots[i]).key())
                &&& tables(slots)[slots[i].key()] == slots[i].table
            },
        forall|key: TableKey| #[trigger]
            tables(slots).dom().contains(key) ==> exists|i: int|
                0 <= i < slots.len() && (#[trigger] slots[i]).key() == key,
    decreases slots.len(),
{
    if slots.len() > 0 {
        let head = slots.drop_last();
        let last = slots.len() - 1;
        assert forall|i: int, j: int|
            #![trigger head[i], head[j]]
            0 <= i < j < head.len() implies head[i].key() != head[j].key() by {
            assert(slots[i] == head[i] && slots[j] == head[j]);
        }
        lemma_tables(head);
        assert forall|i: int| 0 <= i < slots.len() implies {
            &&& tables(slots).dom().contains((#[trigger] slots[i]).key())
            &&& tables(slots)[slots[i].key()] == slots[i].table
        } by {
            if i < last {
                assert(head[i] == slots[i]);
                assert(slots[i].key() != slots[last].key());
            }
        }
        assert forall|key: TableKey| #[trigger] tables(slots).dom().contains(key) implies exists|
            i: int,
        |
            0 <= i < slots.len() && (#[trigger] slots[i]).key() == key by {
            if tables(head).dom().contains(key) {
                let i = choose|i: int| 0 <= i < head.len() && (#[trigger] head[i]).key() == key;
                assert(slots[i].key() == key);
            } else {
                assert(slots[last].key() == key);
            }
        }
    }
}

impl View for TablePool {
    type V = Tables;

    closed spec fn view(&self) -> Tables {
        tables(self.slots@)
    }
}

impl Default for TablePool {
    fn default() -> (r: Self)
        ensures
            r@ == Map::<TableKey, Arc<Table>>::empty(),
    {
        TablePool { slots: Vec::new() }
    }
}

fn same_list(a: &[String], b: &[String]) -> (r: bool)
    ensures
        r == (texts(a@) == texts(b@)),
{
    let ghost x = texts(a@);
    let ghost y = texts(b@);
    if a.len() != b.len() {
        assert(x.len() != y.len());
        return false;
    }
    let mut i: usize = 0;
    while i < a.len()
        invariant
            i <= a@.len(),
            a@.len() == b@.len(),
            x == texts(a@),
            y == texts(b@),
            forall|j: int| 0 <= j < i ==> #[trigger] x[j] == y[j],
        decreases a@.len() - i,
    {
        assert(x[i as int] == a@[i as int]@ && y[i as int] == b@[i as int]@);
        if !same(&a[i], &b[i]) {
            return false;
        }
        i += 1;
    }
    assert(x =~= y);
    true
}

fn same_named(a: &[(String, Vec<String>)], b: &[(String, Vec<String>)]) -> (r: bool)
    ensures
        r == (named(a@) == named(b@)),
{
    let ghost x = named(a@);
    let ghost y = named(b@);
    if a.len() != b.len() {
        assert(x.len() != y.len());
        return false;
    }
    let mut i: usize = 0;
    while i < a.len()
        invariant
            i <= a@.len(),
            a@.len() == b@.len(),
            x == named(a@),
            y == named(b@),
            forall|j: int| 0 <= j < i ==> #[trigger] x[j] == y[j],
        decreases a@.len() - i,
    {
        assert(x[i as int] == (a@[i as int].0@, texts(a@[i as int].1@)));
        assert(y[i as int] == (b@[i as int].0@, texts(b@[i as int].1@)));
        if !same(&a[i].0, &b[i].0) || !same_list(&a[i].1, &b[i].1) {
            return false;
        }
        i += 1;
    }
    assert(x =~= y);
    true
}

fn copy_named(v: &[(String, Vec<String>)]) -> (r: Vec<(String, Vec<String>)>)
    ensures
        named(r@) == named(v@),
{
    let mut out: Vec<(String, Vec<String>)> = Vec::new();
    let mut i: usize = 0;
    while i < v.len()
        invariant
            i <= v@.len(),
            out@.len() == i,
            forall|j: int|
                0 <= j < i ==> (#[trigger] out@[j]).0@ == v@[j].0@ && texts(out@[j].1@) == texts(
                    v@[j].1@,
                ),
        decreases v@.len() - i,
    {
        out.push((v[i].0.clone(), copy_of(&v[i].1)));
        i += 1;
    }
    assert(named(out@) =~= named(v@));
    out
}

impl TablePool {
    #[verifier::type_invariant]
    spec fn well_formed(self) -> bool {
        &&& keys_once(self.slots@)
        &&& forall|i: int| 0 <= i < self.slots@.len() ==> (#[trigger] self.slots@[i]).holds()
    }

    /// The table of a config: the one that is there already, or a new one, which is
    /// there from now on.
    pub fn intern(&mut self, raw: &Raw) -> (r: Result<Arc<Table>, String>)
        ensures
            match r {
                Ok(t) => {
                    &&& table_error(raw@.ula, raw@.sites, raw@.groups) is None
                    &&& table_is(t@, raw@.ula, raw@.sites, raw@.groups)
                    &&& interned(old(self)@, final(self)@, table_key(raw@))
                    &&& t == final(self)@[table_key(raw@)]
                },
                Err(e) => {
                    &&& table_error(raw@.ula, raw@.sites, raw@.groups) == Some(e@)
                    &&& final(self)@ == old(self)@
                },
            },
    {
        proof {
            use_type_invariant(&*self);
            lemma_tables(self.slots@);
        }
        let ghost key = table_key(raw@);
        let ghost before = self.slots@;
        let mut i: usize = 0;
        while i < self.slots.len()
            invariant
                i <= self.slots@.len(),
                self.slots@ == before,
                *self == *old(self),
                key == table_key(raw@),
                keys_once(before),
                forall|j: int| 0 <= j < before.len() ==> (#[trigger] before[j]).holds(),
                forall|j: int| 0 <= j < i ==> (#[trigger] before[j]).key() != key,
            decreases self.slots@.len() - i,
        {
            let slot = &self.slots[i];
            let same_ula = match (&slot.ula, &raw.ula) {
                (Some(a), Some(b)) => same(a, b),
                (None, None) => true,
                _ => false,
            };
            if same_ula && same_named(&slot.sites, &raw.sites) && same_named(
                &slot.groups,
                &raw.groups,
            ) {
                proof {
                    assert(before[i as int].key() == key);
                    assert(before[i as int].holds());
                    lemma_tables(before);
                }
                return Ok(share(&slot.table));
            }
            assert(before[i as int].key() != key);
            i += 1;
        }
        assert(!self@.dom().contains(key));
        match build_table(&raw.ula, &raw.sites, &raw.groups) {
            Ok(t) => {
                let table = Arc::new(t);
                let ula = match &raw.ula {
                    Some(u) => Some(u.clone()),
                    None => None,
                };
                let slot = Slot {
                    ula,
                    sites: copy_named(&raw.sites),
                    groups: copy_named(&raw.groups),
                    table: share(&table),
                };
                assert(slot.key() == key);
                let mut slots: Vec<Slot> = Vec::new();
                std::mem::swap(&mut slots, &mut self.slots);
                slots.push(slot);
                proof {
                    assert forall|j: int| 0 <= j < slots@.len() implies (
                    #[trigger] slots@[j]).holds() by {
                        if j < before.len() {
                            assert(before[j].holds());
                        }
                    }
                    assert forall|j: int, k: int|
                        #![trigger slots@[j], slots@[k]]
                        0 <= j < k < slots@.len() implies slots@[j].key() != slots@[k].key() by {
                        assert(slots@[j] == before[j]);
                        if k < before.len() {
                            assert(slots@[k] == before[k]);
                        }
                    }
                    assert(slots@.drop_last() =~= before);
                }
                self.slots = slots;
                Ok(table)
            },
            Err(e) => Err(e),
        }
    }

    /// Parse a filter's config, sharing its table with the configs before it.
    pub fn parse(&mut self, text: &str) -> (r: Result<Config, String>)
        ensures
            pooled(old(self)@, final(self)@, text@),
            match r {
                Ok(c) => parses_to(text@, c) && shares(final(self)@, text@, c),
                Err(e) => fails_with(text@, e@),
            },
    {
        let raw = match read(text) {
            Ok(raw) => raw,
            Err(e) => {
                return Err(e);
            },
        };
        if raw.subscribe {
            return subscribed(raw);
        }
        match self.intern(&raw) {
            Ok(table) => with_table(raw, table),
            Err(e) => Err(e),
        }
    }
}

/// A pool never lets go of a table.
pub proof fn law_pool_keeps_its_tables(before: Tables, after: Tables, text: Seq<char>)
    requires
        pooled(before, after, text),
    ensures
        forall|key: TableKey| #[trigger]
            before.dom().contains(key) ==> after.dom().contains(key) && after[key] == before[key],
{
}

/// Configs that are parsed through one pool and have the same `ula`, `sites` and
/// `groups` have equal tables, both the one that the pool holds for these parts,
/// whatever their rules are and whatever is parsed between them.
#[verifier::rlimit(40)]
pub proof fn law_one_table_for_the_same_parts(
    before: Tables,
    first: Seq<char>,
    a: Config,
    after: Tables,
    between: Tables,
    second: Seq<char>,
    b: Config,
    now: Tables,
)
    requires
        parses_to(first, a),
        parses_to(second, b),
        !a.subscribe,
        !b.subscribe,
        table_key(config_read(first)->Ok_0) == table_key(
            config_read(second)->Ok_0,
        ),
        pooled(before, after, first),
        shares(after, first, a),
        after.submap_of(between),
        pooled(between, now, second),
        shares(now, second, b),
    ensures
        a.table == b.table,
{
}

// --- what a config permits, in terms of what is written -----------------------

/// The list leads to a member, a source or a reference to no group, that admits the
/// address.
pub open spec fn reaches(t: TableView, list: Seq<Seq<char>>, addr: u128) -> bool {
    exists|m: Seq<char>|
        {
            &&& #[trigger] leads(t.groups, seq![], list, m)
            &&& m.len() == 0 || m[0] != '@' || !t.groups.dom().contains(
                (Seq::<char>::empty(), m.skip(1)),
            )
            &&& member_admits(t.scheme, m, addr)
        }
}

proof fn lemma_reaches(t: TableView, list: Seq<Seq<char>>, set: Seq<Range>, addr: u128)
    requires
        t.groups.dom().finite(),
        list_made(t, list, set),
    ensures
        within(set, addr) <==> reaches(t, list, addr),
{
    law_list_admits_exactly_its_members(t, list, set, addr);
    let ms = expanded(t.groups, list);
    if within(set, addr) {
        let i = choose|i: int| 0 <= i < ms.len() && member_admits(t.scheme, #[trigger] ms[i], addr);
        law_walk_finds_all_and_only(t.groups, seq![], list, true, ms[i]);
        assert(ms.contains(ms[i]));
        assert(leads(t.groups, seq![], list, ms[i]));
        law_references_name_groups(ms[i].skip(1), ms[i]);
    }
    if reaches(t, list, addr) {
        let m = choose|m: Seq<char>|
            {
                &&& #[trigger] leads(t.groups, seq![], list, m)
                &&& m.len() == 0 || m[0] != '@' || !t.groups.dom().contains(
                    (Seq::<char>::empty(), m.skip(1)),
                )
                &&& member_admits(t.scheme, m, addr)
            };
        law_walk_finds_all_and_only(t.groups, seq![], list, true, m);
        assert(is_leaf(t.groups, seq![], m, true));
        let i = choose|i: int| 0 <= i < ms.len() && ms[i] == m;
        assert(member_admits(t.scheme, ms[i], addr));
    }
}

/// Without scopes, an address is permitted exactly where the list leads to a member that
/// admits it.
pub proof fn law_flat_list_permits_exactly_its_members(
    t: TableView,
    allow: Seq<Seq<char>>,
    set: Seq<Range>,
    made: Option<Seq<Scope>>,
    sni: Seq<u8>,
    addr: u128,
)
    requires
        t.groups.dom().finite(),
        judged_as(t, allow, None, set, made),
    ensures
        permitted(set, made, sni, addr) <==> reaches(t, allow, addr),
{
    lemma_reaches(t, allow, set, addr);
}

/// With scopes, an address is permitted exactly where a scope claims the server name and
/// its own list leads to a member that admits the address. The names of each scope are
/// those written for it.
pub proof fn law_scopes_permit_exactly_their_members(
    t: TableView,
    allow: Seq<Seq<char>>,
    rs: Seq<RawScopeView>,
    set: Seq<Range>,
    made: Option<Seq<Scope>>,
    sni: Seq<u8>,
    addr: u128,
)
    requires
        t.groups.dom().finite(),
        judged_as(t, allow, Some(rs), set, made),
    ensures
        made matches Some(list) && {
            &&& list.len() == rs.len()
            &&& forall|k: int| 0 <= k < rs.len() ==> reads(#[trigger] list[k], rs[k].sni)
            &&& permitted(set, made, sni, addr) <==> (scope_of(list, sni) matches Some(k) && 0 <= k
                < rs.len() && reaches(t, rs[k].allow, addr))
        },
{
    let list = made->Some_0;
    assert forall|k: int| 0 <= k < rs.len() implies reads(#[trigger] list[k], rs[k].sni) by {
        assert(scope_made(t, rs[k], list[k]));
        lemma_names_read(list[k], rs[k].sni);
    }
    let texts = Seq::new(rs.len(), |k: int| rs[k].sni);
    law_entries_decide_the_scope(list, texts, sni);
    if let Some(k) = scope_of(list, sni) {
        assert(scope_made(t, rs[k], list[k]));
        lemma_reaches(t, rs[k].allow, list[k].allow@, addr);
    }
}

proof fn lemma_names_read(scope: Scope, sni: Seq<Seq<char>>)
    requires
        patterns(scope.names@) == patterns_of(sni),
    ensures
        reads(scope, sni),
{
    let a = patterns(scope.names@);
    let b = patterns_of(sni);
    assert(a.len() == scope.names@.len() && b.len() == sni.len());
    assert forall|j: int| 0 <= j < sni.len() implies (#[trigger] scope.names@[j])@ == pattern_of(
        sni[j],
    ) by {
        assert(a[j] == scope.names@[j]@);
        assert(b[j] == pattern_of(sni[j]));
        assert(a[j] == b[j]);
    }
}

/// A connection to a name that the first scope lists is judged by that scope's list alone.
pub proof fn law_a_listed_name_goes_by_its_scope(
    t: TableView,
    allow: Seq<Seq<char>>,
    rs: Seq<RawScopeView>,
    set: Seq<Range>,
    made: Option<Seq<Scope>>,
    j: int,
    addr: u128,
)
    requires
        t.groups.dom().finite(),
        judged_as(t, allow, Some(rs), set, made),
        rs.len() > 0,
        0 <= j < rs[0].sni.len(),
        rs[0].sni[j].len() <= 2 || rs[0].sni[j][0] != '*' || rs[0].sni[j][1] != '.',
    ensures
        permitted(set, made, encode_utf8(rs[0].sni[j]), addr) <==> reaches(t, rs[0].allow, addr),
{
    let name = encode_utf8(rs[0].sni[j]);
    let list = made->Some_0;
    law_scopes_permit_exactly_their_members(t, allow, rs, set, made, name, addr);
    assert(reads(list[0], rs[0].sni));
    assert(list[0].names@[j]@ == pattern_of(rs[0].sni[j]));
    law_entry_claims_its_own_name(list[0], list.drop_first(), j, rs[0].sni[j]);
    assert(seq![list[0]] + list.drop_first() =~= list);
}

/// A subscriber is refused exactly where it brings any part of a table, and permits
/// nothing before it has looked at what is published.
pub proof fn law_subscribers_bring_no_table(raw: RawView, c: Config, sni: Seq<u8>, addr: u128)
    requires
        raw.subscribe,
    ensures
        config_error(raw) is None <==> raw.ula is None && raw.sites.len() == 0 && raw.groups.len()
            == 0,
        config_is(c, raw) ==> c.subscribe && c.generation is None && !permitted(
            c.allow@,
            scope_list(c.scopes),
            sni,
            addr,
        ),
{
    if config_is(c, raw) {
        law_deny_all_denies(raw.scopes is Some, c.allow@, scope_list(c.scopes), sni, addr);
    }
}

/// A config with a prefix is refused only for its table; one without is refused also
/// where its lists hold a member that needs a prefix.
pub proof fn law_configs_are_refused_for_cause(raw: RawView)
    requires
        !raw.subscribe,
    ensures
        table_error(raw.ula, raw.sites, raw.groups) matches Some(e) ==> config_error(raw) == Some(e),
        raw.ula is Some && table_error(raw.ula, raw.sites, raw.groups) is None ==> config_error(
            raw,
        ) is None,
        raw.ula is None && table_error(raw.ula, raw.sites, raw.groups) is None ==> (config_error(
            raw,
        ) is None <==> {
            &&& forall|i: int|
                0 <= i < expanded(groups_made(raw.groups), raw.allow).len() ==> encoded_bare(
                    #[trigger] expanded(groups_made(raw.groups), raw.allow)[i],
                ) is Ok
            &&& raw.scopes matches Some(rs) ==> forall|k: int, i: int|
                0 <= k < rs.len() && 0 <= i < expanded(
                    groups_made(raw.groups),
                    rs[k].allow,
                ).len() ==> encoded_bare(
                    #[trigger] expanded(groups_made(raw.groups), rs[k].allow)[i],
                ) is Ok
        }),
{
    let t = TableView { scheme: None, groups: groups_made(raw.groups) };
    law_lists_expand_member_by_member(None, expanded(t.groups, raw.allow));
    if let Some(rs) = raw.scopes {
        lemma_scopes_ok(t, rs);
        assert forall|k: int| 0 <= k < rs.len() implies (rules(t, (#[trigger] rs[k]).allow) is Ok
            <==> forall|i: int|
            0 <= i < expanded(t.groups, rs[k].allow).len() ==> encoded_bare(
                #[trigger] expanded(t.groups, rs[k].allow)[i],
            ) is Ok) by {
            law_lists_expand_member_by_member(None, expanded(t.groups, rs[k].allow));
        }
        if scopes_error(t, rs) is None {
            assert forall|k: int, i: int|
                0 <= k < rs.len() && 0 <= i < expanded(
                    groups_made(raw.groups),
                    rs[k].allow,
                ).len() implies encoded_bare(
                #[trigger] expanded(groups_made(raw.groups), rs[k].allow)[i],
            ) is Ok by {
                assert(rules(t, rs[k].allow) is Ok);
            }
        }
    }
}

proof fn lemma_scopes_ok(t: TableView, rs: Seq<RawScopeView>)
    ensures
        scopes_error(t, rs) is None <==> forall|k: int|
            0 <= k < rs.len() ==> rules(t, (#[trigger] rs[k]).allow) is Ok,
    decreases rs.len(),
{
    if rs.len() > 0 {
        let head = rs.drop_last();
        let n = rs.len() - 1;
        lemma_scopes_ok(t, head);
        if scopes_error(t, rs) is None {
            assert forall|k: int| 0 <= k < rs.len() implies rules(
                t,
                (#[trigger] rs[k]).allow,
            ) is Ok by {
                if k < n {
                    assert(rules(t, head[k].allow) is Ok);
                }
            }
        }
        if forall|k: int| 0 <= k < rs.len() ==> rules(t, (#[trigger] rs[k]).allow) is Ok {
            assert forall|k: int| 0 <= k < head.len() implies rules(
                t,
                (#[trigger] head[k]).allow,
            ) is Ok by {
                assert(rules(t, rs[k].allow) is Ok);
            }
            assert(rules(t, rs[n].allow) is Ok);
        }
    }
}

/// A config that brings its own table goes by it: an address is permitted exactly where
/// the rules written lead to a member that admits it under the table written.
pub proof fn law_config_permits_what_is_written(
    c: Config,
    raw: RawView,
    sni: Seq<u8>,
    addr: u128,
)
    requires
        !raw.subscribe,
        raw.scopes is None,
        config_is(c, raw),
        c.table@.groups.dom().finite(),
    ensures
        !c.subscribe,
        c.table@.scheme is Some <==> raw.ula is Some,
        permitted(c.allow@, scope_list(c.scopes), sni, addr) <==> reaches(
            c.table@,
            raw.allow,
            addr,
        ),
{
    law_flat_list_permits_exactly_its_members(
        c.table@,
        raw.allow,
        c.allow@,
        scope_list(c.scopes),
        sni,
        addr,
    );
}

/// A subscriber that has looked permits what its rules lead to under the table that is
/// published, where they expand under it, and nothing where they do not.
pub proof fn law_subscriber_permits_by_the_published_table(
    c: Config,
    generation: u64,
    t: TableView,
    sni: Seq<u8>,
    addr: u128,
)
    requires
        c.subscribe,
        c.raw_scopes is None,
        t.groups.dom().finite(),
        current(c, generation, Some(t)),
    ensures
        t.scheme is Some ==> (permitted(c.allow@, scope_list(c.scopes), sni, addr) <==> reaches(
            t,
            texts(c.raw_allow@),
            addr,
        )),
        rules(t, texts(c.raw_allow@)) is Err ==> !permitted(
            c.allow@,
            scope_list(c.scopes),
            sni,
            addr,
        ),
{
    if t.scheme is Some {
        lemma_all_expand(t, texts(c.raw_allow@), None);
        law_flat_list_permits_exactly_its_members(
            t,
            texts(c.raw_allow@),
            c.allow@,
            scope_list(c.scopes),
            sni,
            addr,
        );
    }
    if rules(t, texts(c.raw_allow@)) is Err {
        law_deny_all_denies(false, c.allow@, scope_list(c.scopes), sni, addr);
    }
}

/// A header is encoded by the scheme of the config's own table, or of the published one
/// for a subscriber.
pub proof fn law_headers_go_by_one_table(c: Config, t: &Table)
    ensures
        !c.subscribe ==> c.goes_by(Some(t)) == c.table@.scheme && c.goes_by(None)
            == c.table@.scheme,
        c.subscribe ==> c.goes_by(Some(t)) == t@.scheme && c.goes_by(None) is None,
{
}

/// Why a subscriber is refused, and a carrier without a prefix.
pub proof fn law_refused_parts_say_why(raw: RawView)
    ensures
        raw.subscribe && config_error(raw) is Some ==> config_error(raw) == Some(
            "`subscribe` takes the published table; drop `ula`, `sites` and `groups`"@,
        ),
        raw.ula is None ==> table_failure(raw) == Some("missing field `ula`"@),
        raw.ula is Some ==> table_failure(raw) == table_error(raw.ula, raw.sites, raw.groups),
{
}

/// Parsing a text adds one table to a pool at most, that of the text's own parts, and
/// none where the text is a subscriber's or is refused for its table.
pub proof fn law_pool_grows_by_what_is_asked_for(before: Tables, after: Tables, text: Seq<char>)
    requires
        pooled(before, after, text),
    ensures
        forall|key: TableKey| #[trigger]
            after.dom().contains(key) && !before.dom().contains(key) ==> (config_read(
                text,
            ) matches Ok(raw) && !raw.subscribe && key == (TableKey {
                ula: raw.ula,
                sites: raw.sites,
                groups: raw.groups,
            })),
        config_read(text) matches Ok(raw) && !raw.subscribe && table_error(
            raw.ula,
            raw.sites,
            raw.groups,
        ) is None ==> after.dom().contains(
            TableKey {
                ula: config_read(text)->Ok_0.ula,
                sites: config_read(text)->Ok_0.sites,
                groups: config_read(text)->Ok_0.groups,
            },
        ),
{
}

} // verus!
