//! The identity table -- sites and groups -- and what lists of rules come to under
//! it.

use crate::cidr::{
    admitted, blocks, build_from, cidr, collapsed, entries_of, law_bad_entries_are_refused,
    lemma_blocks_append,
    lemma_solid_entries, solid, within, Block, CidrSet, Range,
};
use crate::graph::{expanded, key_of, Graph};
use crate::groups::{
    is_leaf, law_references_name_groups, law_walk_finds_all_and_only, leads, ref_name, ref_of,
    GroupsView,
};
use crate::identity::{
    all_site_spaces, be2, claims, encode_all_sites, encode_member, encoded, encoded_bare, lists,
    mapped_octets, mapped_v4, names, net_text, parse_prefix, prefix_of, site_space, write_net,
    KIND_SITE, SITE_CONTESTED, Scheme, SchemeView, Site,
};
use crate::ip::{
    all_address_chars, is_address_char, law_addresses_have_address_chars,
    law_only_its_own_text_is_v4, law_v4_is_not_v6, law_v4_text_reads_back,
    law_v6_text_reads_back, read_v4, read_v6, v4, v4_text, v6, v6_text,
};
use crate::json::{named, Named};
use crate::meeting::{
    admits, has_address, has_label, is_net_text, is_source, law_mapped_number,
    law_net_text_reads_back, law_site_spaces_are_disjoint, lemma_bare_is_net,
    lemma_encoded_is_net, lemma_net_text_is_solid, lemma_source_text,
    lemma_v4_is_text, lemma_v6_is_text, lemma_within,
};
use crate::order::{in_order, lemma_same_values};
use crate::prefix::{be, block, covers};
use crate::text::{
    chars_of, concat, copy_of, find, find_char, is_digit, is_white,
    law_decimals_above_the_limit_are_refused, law_only_digits_are_decimals,
    law_tidying_goes_piece_by_piece,
    law_trimming_keeps_the_core, law_what_is_white, lemma_find_is, lemma_numeral,
    lemma_uint_bound, lemma_uint_of_numeral, numeral, quote, quoted, read_uint, same, texts,
    tidied, tidy, trimmed, uint,
};
use vstd::arithmetic::power2::lemma2_to64;
use vstd::prelude::*;
use vstd::slice::{slice_subrange, slice_to_vec};
use vstd::utf8::encode_utf8;

verus! {

// --- sites --------------------------------------------------------------------

/// A site source is a vpce-id or a source prefix, told apart by trying to read it
/// as an address: the net it stands for, nothing for an opaque id, or what is
/// wrong with its width.
///
/// IPv4 becomes ::ffff:a.b.c.d/(96+N) so one set covers both families, and a bare
/// address is a single host.
pub open spec fn classified(m: Seq<char>) -> Result<Option<Seq<char>>, Seq<char>> {
    let k = find(m, '/');
    let width = uint(m.skip(k + 1), u8::MAX as int);
    if k < m.len() && width is None {
        Err("bad prefix length in site source "@ + quoted(m))
    } else {
        match (v4(m.take(k)), v6(m.take(k))) {
            (Some(q), _) => {
                let bits = if k < m.len() { width->Some_0 } else { 32 };
                if bits > 32 {
                    Err("prefix length above /32 in site source "@ + quoted(m))
                } else {
                    Ok(Some(net_text(mapped_octets(q), 96 + bits)))
                }
            },
            (None, Some(o)) => {
                let bits = if k < m.len() { width->Some_0 } else { 128 };
                Ok(Some(net_text(o, bits)))
            },
            (None, None) => Ok(None),
        }
    }
}

/// The labels and the nets among the sources, or what is wrong with the first bad
/// one.
pub open spec fn sorted_out(list: Seq<Seq<char>>) -> Result<
    (Seq<Seq<u8>>, Seq<Seq<char>>),
    Seq<char>,
>
    decreases list.len(),
{
    if list.len() == 0 {
        Ok((seq![], seq![]))
    } else {
        match sorted_out(list.drop_last()) {
            Err(e) => Err(e),
            Ok((labels, nets)) => match classified(list.last()) {
                Err(e) => Err(e),
                Ok(None) => Ok((labels.push(encode_utf8(list.last())), nets)),
                Ok(Some(net)) => Ok((labels, nets.push(net))),
            },
        }
    }
}

/// What a site is made of.
pub struct SiteParts {
    pub id: u16,
    pub labels: Seq<Seq<u8>>,
    pub blocks: Seq<Block>,
}

/// The parts of one entry of `sites`, or what is wrong with it. Sources are trimmed
/// and empties dropped: a generator splitting a text block would otherwise turn a
/// trailing newline into a source named "". Site 0 is the system's, so no tenant may
/// declare it.
pub open spec fn site_parts(key: Seq<char>, sources: Seq<Seq<char>>) -> Result<
    SiteParts,
    Seq<char>,
> {
    match uint(key, u16::MAX as int) {
        Some(id) if id != 0 => match sorted_out(tidied(sources)) {
            Err(e) => Err(e),
            Ok((labels, nets)) => match blocks(nets) {
                Err(e) => Err(e),
                Ok(blocks) => Ok(SiteParts { id: id as u16, labels, blocks }),
            },
        },
        _ => Err("site key "@ + quoted(key) + " is not 1-65535"@),
    }
}

/// The parts of all of them, or what is wrong with the first bad one.
pub open spec fn all_parts(sites: Seq<Named>) -> Result<Seq<SiteParts>, Seq<char>>
    decreases sites.len(),
{
    if sites.len() == 0 {
        Ok(seq![])
    } else {
        match all_parts(sites.drop_last()) {
            Err(e) => Err(e),
            Ok(head) => match site_parts(sites.last().0, sites.last().1) {
                Err(e) => Err(e),
                Ok(p) => Ok(head.push(p)),
            },
        }
    }
}

pub open spec fn octet_strings(v: Seq<Vec<u8>>) -> Seq<Seq<u8>> {
    v.map_values(|s: Vec<u8>| s@)
}

/// The set holds the blocks.
pub open spec fn holds_blocks(bs: Seq<Block>, rs: Seq<Range>) -> bool {
    &&& collapsed(bs, rs)
    &&& forall|x: u128| within(rs, x) <==> #[trigger] admitted(bs, x)
}

pub open spec fn is_site(site: Site, p: SiteParts) -> bool {
    &&& site.id == p.id
    &&& octet_strings(site.vpce@) == p.labels
    &&& holds_blocks(p.blocks, site.cidrs@)
}

/// The sites are those with these parts, in the order of their ids.
pub open spec fn sites_are(sites: Seq<Site>, ps: Seq<SiteParts>) -> bool {
    &&& in_order(sites)
    &&& exists|given: Seq<Site>|
        {
            &&& #[trigger] given.len() == ps.len()
            &&& given.to_multiset() == sites.to_multiset()
            &&& forall|i: int| 0 <= i < ps.len() ==> is_site(#[trigger] given[i], ps[i])
        }
}

fn classify(member: &str) -> (r: Result<Option<String>, String>)
    ensures
        match r {
            Ok(Some(net)) => classified(member@) == Ok::<Option<Seq<char>>, Seq<char>>(Some(net@))
                && solid(net@),
            Ok(None) => classified(member@) == Ok::<Option<Seq<char>>, Seq<char>>(None),
            Err(e) => classified(member@) == Err::<Option<Seq<char>>, Seq<char>>(e@),
        },
{
    let chars = chars_of(member);
    let slash = find_char(&chars, '/');
    let head = slice_subrange(&chars, 0, slash);
    assert(head@ =~= member@.take(slash as int));
    let width: Option<u8> = if slash < chars.len() {
        let tail = slice_subrange(&chars, slash + 1, chars.len());
        assert(tail@ =~= member@.skip(slash + 1));
        match read_uint(tail, 255) {
            Some(w) => Some(w as u8),
            None => {
                return Err(concat("bad prefix length in site source ", &quote(member)));
            },
        }
    } else {
        None
    };
    if let Some(q) = read_v4(head) {
        let bits: u8 = match width {
            Some(w) => w,
            None => 32,
        };
        if bits > 32 {
            return Err(concat("prefix length above /32 in site source ", &quote(member)));
        }
        proof {
            lemma_net_text_is_solid(mapped_octets(q@), 96 + bits);
        }
        return Ok(Some(write_net(&mapped_v4(&q), 96 + bits)));
    }
    if let Some(o) = read_v6(head) {
        let bits: u8 = match width {
            Some(w) => w,
            None => 128,
        };
        proof {
            lemma_net_text_is_solid(o@, bits as int);
        }
        return Ok(Some(write_net(&o, bits)));
    }
    // Not an address, so it is an endpoint id.
    Ok(None)
}

proof fn lemma_sorted_out_prefix(list: Seq<Seq<char>>, n: int)
    requires
        0 <= n <= list.len(),
        sorted_out(list.take(n)) is Err,
    ensures
        sorted_out(list) == sorted_out(list.take(n)),
    decreases list.len(),
{
    if n == list.len() {
        assert(list.take(n) =~= list);
    } else {
        assert(list.drop_last().take(n) =~= list.take(n));
        lemma_sorted_out_prefix(list.drop_last(), n);
    }
}

fn build_site(key: &str, sources: &[String]) -> (r: Result<Site, String>)
    ensures
        match r {
            Ok(site) => {
                &&& site_parts(key@, texts(sources@)) matches Ok(p)
                &&& is_site(site, p)
            },
            Err(e) => site_parts(key@, texts(sources@)) == Err::<SiteParts, Seq<char>>(e@),
        },
{
    let chars = chars_of(key);
    let id = match read_uint(&chars, 65535) {
        Some(n) => n as u16,
        None => 0,
    };
    if id == 0 {
        return Err(concat(&concat("site key ", &quote(key)), " is not 1-65535"));
    }
    let list = tidy(sources);
    let ghost all = texts(list@);
    let mut vpce: Vec<Vec<u8>> = Vec::new();
    let mut nets: Vec<String> = Vec::new();
    let mut i: usize = 0;
    assert(octet_strings(vpce@) =~= seq![]);
    assert(texts(nets@) =~= seq![]);
    while i < list.len()
        invariant
            i <= list@.len(),
            all == texts(list@),
            all == tidied(texts(sources@)),
            uint(key@, u16::MAX as int) == Some(id as int),
            id != 0,
            sorted_out(all.take(i as int)) == Ok::<(Seq<Seq<u8>>, Seq<Seq<char>>), Seq<char>>(
                (octet_strings(vpce@), texts(nets@)),
            ),
            forall|j: int| 0 <= j < nets@.len() ==> solid(#[trigger] texts(nets@)[j]),
        decreases list@.len() - i,
    {
        assert(all.take(i + 1).drop_last() =~= all.take(i as int));
        assert(all.take(i + 1).last() == list@[i as int]@);
        match classify(&list[i]) {
            Ok(Some(net)) => {
                let ghost before = texts(nets@);
                nets.push(net);
                assert(texts(nets@) =~= before.push(net@));
            },
            Ok(None) => {
                let ghost before = octet_strings(vpce@);
                let label = slice_to_vec(list[i].as_str().as_bytes());
                assert(label@ =~= encode_utf8(list@[i as int]@));
                vpce.push(label);
                assert(octet_strings(vpce@) =~= before.push(label@));
            },
            Err(e) => {
                proof {
                    lemma_sorted_out_prefix(all, i + 1);
                }
                return Err(e);
            },
        }
        i += 1;
    }
    assert(all.take(i as int) =~= all);
    proof {
        lemma_solid_entries(texts(nets@));
    }
    match build_from(&nets) {
        Ok(cidrs) => Ok(Site { id, vpce, cidrs }),
        Err(e) => Err(String::from_str(e)),
    }
}

proof fn lemma_all_parts_prefix(sites: Seq<Named>, n: int)
    requires
        0 <= n <= sites.len(),
        all_parts(sites.take(n)) is Err,
    ensures
        all_parts(sites) == all_parts(sites.take(n)),
    decreases sites.len(),
{
    if n == sites.len() {
        assert(sites.take(n) =~= sites);
    } else {
        assert(sites.drop_last().take(n) =~= sites.take(n));
        lemma_all_parts_prefix(sites.drop_last(), n);
    }
}

fn build_sites(raw: &[(String, Vec<String>)]) -> (r: Result<Vec<Site>, String>)
    ensures
        match r {
            Ok(sites) => {
                &&& all_parts(named(raw@)) matches Ok(ps)
                &&& ps.len() == sites@.len()
                &&& forall|i: int| 0 <= i < ps.len() ==> is_site(#[trigger] sites@[i], ps[i])
            },
            Err(e) => all_parts(named(raw@)) == Err::<Seq<SiteParts>, Seq<char>>(e@),
        },
{
    let ghost all = named(raw@);
    let mut out: Vec<Site> = Vec::new();
    let ghost mut ps: Seq<SiteParts> = seq![];
    let mut i: usize = 0;
    while i < raw.len()
        invariant
            i <= raw@.len(),
            all == named(raw@),
            all_parts(all.take(i as int)) == Ok::<Seq<SiteParts>, Seq<char>>(ps),
            out@.len() == ps.len(),
            forall|j: int| 0 <= j < ps.len() ==> is_site(#[trigger] out@[j], ps[j]),
        decreases raw@.len() - i,
    {
        assert(all.take(i + 1).drop_last() =~= all.take(i as int));
        assert(all.take(i + 1).last() == (raw@[i as int].0@, texts(raw@[i as int].1@)));
        match build_site(&raw[i].0, &raw[i].1) {
            Ok(site) => {
                out.push(site);
                proof {
                    ps = ps.push(site_parts(all[i as int].0, all[i as int].1)->Ok_0);
                }
            },
            Err(e) => {
                proof {
                    lemma_all_parts_prefix(all, i + 1);
                }
                return Err(e);
            },
        }
        i += 1;
    }
    assert(all.take(i as int) =~= all);
    Ok(out)
}

// --- the table ----------------------------------------------------------------

pub struct TableView {
    pub scheme: Option<SchemeView>,
    pub groups: GroupsView,
}

/// The identity table: how a header encodes (scheme) and what names mean (groups).
#[derive(Debug)]
pub struct Table {
    pub scheme: Option<Scheme>,
    pub groups: Graph,
}

impl View for Table {
    type V = TableView;

    open spec fn view(&self) -> TableView {
        TableView {
            scheme: match self.scheme {
                Some(s) => Some(s@),
                None => None,
            },
            groups: self.groups@,
        }
    }
}

/// What one member of an expanded list encodes to. `!*` is the one member that
/// stands for many: every DECLARED site.
pub open spec fn member_texts(scheme: Option<SchemeView>, m: Seq<char>) -> Result<
    Seq<Seq<char>>,
    Seq<char>,
> {
    match scheme {
        Some(s) => if m == "!*"@ {
            Ok(all_site_spaces(s))
        } else {
            Ok(seq![encoded(s, m)])
        },
        None => match encoded_bare(m) {
            Ok(t) => Ok(seq![t]),
            Err(e) => Err(e),
        },
    }
}

/// What an expanded list encodes to, or what is wrong with its first bad member.
pub open spec fn encoded_list(scheme: Option<SchemeView>, ms: Seq<Seq<char>>) -> Result<
    Seq<Seq<char>>,
    Seq<char>,
>
    decreases ms.len(),
{
    if ms.len() == 0 {
        Ok(seq![])
    } else {
        match encoded_list(scheme, ms.drop_last()) {
            Err(e) => Err(e),
            Ok(head) => match member_texts(scheme, ms.last()) {
                Err(e) => Err(e),
                Ok(more) => Ok(head + more),
            },
        }
    }
}

/// The rules that a list of entries comes to under a table.
pub open spec fn rules(t: TableView, list: Seq<Seq<char>>) -> Result<Seq<Seq<char>>, Seq<char>> {
    encoded_list(t.scheme, expanded(t.groups, list))
}

/// The set admits what the list says under the table.
pub open spec fn list_made(t: TableView, list: Seq<Seq<char>>, rs: Seq<Range>) -> bool {
    &&& rules(t, list) matches Ok(ts)
    &&& blocks(ts) matches Ok(bs)
    &&& holds_blocks(bs, rs)
}

proof fn lemma_encoded_list_prefix(scheme: Option<SchemeView>, ms: Seq<Seq<char>>, n: int)
    requires
        0 <= n <= ms.len(),
        encoded_list(scheme, ms.take(n)) is Err,
    ensures
        encoded_list(scheme, ms) == encoded_list(scheme, ms.take(n)),
    decreases ms.len(),
{
    if n == ms.len() {
        assert(ms.take(n) =~= ms);
    } else {
        assert(ms.drop_last().take(n) =~= ms.take(n));
        lemma_encoded_list_prefix(scheme, ms.drop_last(), n);
    }
}

/// Nets read as blocks.
proof fn lemma_nets_read(ts: Seq<Seq<char>>)
    requires
        forall|i: int| 0 <= i < ts.len() ==> is_net_text(#[trigger] ts[i]),
    ensures
        blocks(ts) is Ok,
        entries_of(ts) == ts,
    decreases ts.len(),
{
    assert forall|i: int| 0 <= i < ts.len() implies solid(#[trigger] ts[i]) by {
        let (o, bits) = choose|o: Seq<u8>, bits: int|
            o.len() == 16 && 0 <= bits <= 128 && ts[i] == #[trigger] net_text(o, bits);
        lemma_net_text_is_solid(o, bits);
    }
    lemma_solid_entries(ts);
    if ts.len() > 0 {
        lemma_nets_read(ts.drop_last());
        assert(is_net_text(ts[ts.len() - 1]));
        let (o, bits) = choose|o: Seq<u8>, bits: int|
            o.len() == 16 && 0 <= bits <= 128 && ts.last() == #[trigger] net_text(o, bits);
        law_net_text_reads_back(o, bits);
    }
}

proof fn lemma_site_space_is_net(s: SchemeView, id: u16)
    requires
        s.well_formed(),
        s.site_net is Some,
    ensures
        is_net_text(site_space(s.site_net->Some_0, id)),
{
    let o = crate::identity::site_octets(s.site_net->Some_0, id, crate::identity::zeros(4));
    assert(o.len() == 16);
    assert(site_space(s.site_net->Some_0, id) == net_text(o, 96));
}

/// Whatever a list encodes to, every entry of it reads as a block: with a scheme
/// nothing is ever refused, and without one only sources that need it are.
pub proof fn law_rules_always_read(scheme: Option<SchemeView>, ms: Seq<Seq<char>>)
    requires
        scheme matches Some(s) ==> s.well_formed(),
    ensures
        scheme is Some ==> encoded_list(scheme, ms) is Ok,
        encoded_list(scheme, ms) matches Ok(ts) ==> {
            &&& forall|i: int| 0 <= i < ts.len() ==> is_net_text(#[trigger] ts[i])
            &&& blocks(ts) is Ok
            &&& entries_of(ts) == ts
        },
    decreases ms.len(),
{
    if ms.len() > 0 {
        law_rules_always_read(scheme, ms.drop_last());
        if let Ok(ts) = encoded_list(scheme, ms) {
            let m = ms.last();
            let head = encoded_list(scheme, ms.drop_last())->Ok_0;
            let more = member_texts(scheme, m)->Ok_0;
            assert forall|i: int| 0 <= i < more.len() implies is_net_text(#[trigger] more[i]) by {
                match scheme {
                    Some(s) => {
                        lemma_encoded_is_net(s, m);
                        if m == "!*"@ {
                            lemma_site_space_is_net(s, s.sites[i].id);
                        }
                    },
                    None => {
                        lemma_bare_is_net(m);
                    },
                }
            }
            assert forall|i: int| 0 <= i < ts.len() implies is_net_text(#[trigger] ts[i]) by {
                if i >= head.len() {
                    assert(ts[i] == more[i - head.len()]);
                }
            }
            lemma_nets_read(ts);
        }
    } else {
        lemma_nets_read(seq![]);
    }
}

impl Table {
    fn encode_list(&self, members: &[String]) -> (r: Result<Vec<String>, String>)
        ensures
            match r {
                Ok(ts) => encoded_list(self@.scheme, texts(members@)) == Ok::<
                    Seq<Seq<char>>,
                    Seq<char>,
                >(texts(ts@)),
                Err(e) => encoded_list(self@.scheme, texts(members@)) == Err::<
                    Seq<Seq<char>>,
                    Seq<char>,
                >(e@),
            },
    {
        let ghost all = texts(members@);
        let mut out: Vec<String> = Vec::new();
        let mut i: usize = 0;
        assert(texts(out@) =~= seq![]);
        while i < members.len()
            invariant
                i <= members@.len(),
                all == texts(members@),
                encoded_list(self@.scheme, all.take(i as int)) == Ok::<Seq<Seq<char>>, Seq<char>>(
                    texts(out@),
                ),
            decreases members@.len() - i,
        {
            assert(all.take(i + 1).drop_last() =~= all.take(i as int));
            assert(all.take(i + 1).last() == members@[i as int]@);
            let ghost before = texts(out@);
            let m = &members[i];
            match &self.scheme {
                Some(s) => {
                    if same(m, "!*") {
                        let mut spaces = encode_all_sites(s);
                        let ghost more = texts(spaces@);
                        out.append(&mut spaces);
                        assert(texts(out@) =~= before + more);
                    } else if let Ok(t) = encode_member(Some(s), m) {
                        out.push(t);
                        assert(texts(out@) =~= before + seq![t@]);
                    }
                },
                None => {
                    match encode_member(None, m) {
                        Ok(t) => {
                            out.push(t);
                            assert(texts(out@) =~= before + seq![t@]);
                        },
                        Err(e) => {
                            proof {
                                lemma_encoded_list_prefix(self@.scheme, all, i + 1);
                            }
                            return Err(e);
                        },
                    }
                },
            }
            i += 1;
        }
        assert(all.take(i as int) =~= all);
        Ok(out)
    }

    /// Expand rule entries -- `@refs` walk the groups, then every literal is encoded
    /// the way the packet path encodes a header carrying it, so a rule and the wire
    /// meet on the same address by construction.
    pub fn resolve(&self, list: &[String]) -> (r: Result<CidrSet, String>)
        ensures
            match r {
                Ok(set) => list_made(self@, texts(list@), set@),
                Err(e) => rules(self@, texts(list@)) == Err::<Seq<Seq<char>>, Seq<char>>(e@),
            },
    {
        let members = self.groups.resolve(list);
        let ts = match self.encode_list(&members) {
            Ok(ts) => ts,
            Err(e) => {
                return Err(e);
            },
        };
        proof {
            if let Some(s) = &self.scheme {
                s.lemma_well_formed();
            }
            law_rules_always_read(self@.scheme, texts(members@));
        }
        match build_from(&ts) {
            Ok(set) => Ok(set),
            Err(e) => Err(String::from_str(e)),
        }
    }
}

/// The groups of a config, the last of a name standing.
pub open spec fn groups_made(gs: Seq<Named>) -> GroupsView
    decreases gs.len(),
{
    if gs.len() == 0 {
        Map::empty()
    } else {
        groups_made(gs.drop_last()).insert(key_of(gs.last().0), gs.last().1)
    }
}

/// What is wrong with the first source of a group that there is nothing to encode
/// into. Checked eagerly, or it would hide until some later tenant references the
/// group.
pub open spec fn members_error(members: Seq<Seq<char>>) -> Option<Seq<char>>
    decreases members.len(),
{
    if members.len() == 0 {
        None
    } else {
        match members_error(members.drop_last()) {
            Some(e) => Some(e),
            None => if ref_name(members.last()) is Some {
                None
            } else {
                match encoded_bare(members.last()) {
                    Ok(_) => None,
                    Err(e) => Some(e),
                }
            },
        }
    }
}

pub open spec fn groups_error(gs: Seq<Named>) -> Option<Seq<char>>
    decreases gs.len(),
{
    if gs.len() == 0 {
        None
    } else {
        match groups_error(gs.drop_last()) {
            Some(e) => Some(e),
            None => members_error(gs.last().1),
        }
    }
}

/// What is wrong with a table.
pub open spec fn table_error(ula: Option<Seq<char>>, sites: Seq<Named>, gs: Seq<Named>) -> Option<
    Seq<char>,
> {
    match ula {
        Some(u) => match (prefix_of(u), all_parts(sites)) {
            (Err(e), _) => Some(e),
            (_, Err(e)) => Some(e),
            _ => None,
        },
        None => if sites.len() > 0 {
            Some("`sites` needs `ula` to encode into"@)
        } else {
            groups_error(gs)
        },
    }
}

/// The table is the one written.
pub open spec fn table_is(
    t: TableView,
    ula: Option<Seq<char>>,
    sites: Seq<Named>,
    gs: Seq<Named>,
) -> bool {
    &&& t.groups == groups_made(gs)
    &&& match ula {
        None => t.scheme is None,
        Some(u) => {
            &&& t.scheme matches Some(s)
            &&& prefix_of(u) == Ok::<Seq<u8>, Seq<char>>(s.prefix)
            &&& s.site_net == Some(s.prefix + be2(KIND_SITE))
            &&& all_parts(sites) matches Ok(ps)
            &&& sites_are(s.sites, ps)
        },
    }
}

/// A site whose parts hold the address, or list the label.
pub open spec fn part_claims(ps: Seq<SiteParts>, x: u128, id: u16) -> bool {
    exists|i: int| 0 <= i < ps.len() && (#[trigger] ps[i]).id == id && admitted(ps[i].blocks, x)
}

pub open spec fn part_lists(ps: Seq<SiteParts>, label: Seq<u8>, id: u16) -> bool {
    exists|i: int| 0 <= i < ps.len() && (#[trigger] ps[i]).id == id && ps[i].labels.contains(label)
}

/// The sites and those given are the same, and have these parts.
spec fn given_as(sites: Seq<Site>, given: Seq<Site>, ps: Seq<SiteParts>) -> bool {
    &&& given.len() == ps.len()
    &&& forall|s: Site| given.contains(s) <==> sites.contains(s)
    &&& forall|i: int| 0 <= i < ps.len() ==> is_site(#[trigger] given[i], ps[i])
}

/// The place among those given of one of the sites.
proof fn lemma_given(sites: Seq<Site>, given: Seq<Site>, ps: Seq<SiteParts>, k: int) -> (i: int)
    requires
        given_as(sites, given, ps),
        0 <= k < sites.len(),
    ensures
        0 <= i < ps.len(),
        is_site(sites[k], ps[i]),
{
    assert(sites.contains(sites[k]));
    assert(given.contains(sites[k]));
    let i = choose|i: int| 0 <= i < given.len() && given[i] == sites[k];
    assert(is_site(given[i], ps[i]));
    i
}

/// The place among the sites of one of those given.
proof fn lemma_kept(sites: Seq<Site>, given: Seq<Site>, ps: Seq<SiteParts>, i: int) -> (k: int)
    requires
        given_as(sites, given, ps),
        0 <= i < ps.len(),
    ensures
        0 <= k < sites.len(),
        is_site(sites[k], ps[i]),
{
    assert(is_site(given[i], ps[i]));
    assert(given.contains(given[i]));
    assert(sites.contains(given[i]));
    choose|k: int| 0 <= k < sites.len() && sites[k] == given[i]
}

proof fn lemma_labels(site: Site, p: SiteParts, label: Seq<u8>)
    requires
        is_site(site, p),
    ensures
        names(site, label) <==> p.labels.contains(label),
{
    let v = site.vpce@;
    if names(site, label) {
        let j = choose|j: int| 0 <= j < v.len() && (#[trigger] v[j])@ == label;
        assert(octet_strings(v)[j] == label);
    }
    if p.labels.contains(label) {
        let j = choose|j: int| 0 <= j < p.labels.len() && p.labels[j] == label;
        assert(octet_strings(v)[j] == v[j]@);
    }
}

proof fn lemma_part_claims(
    sites: Seq<Site>,
    given: Seq<Site>,
    ps: Seq<SiteParts>,
    x: u128,
    id: u16,
)
    requires
        given_as(sites, given, ps),
    ensures
        claims(sites, x, id) <==> part_claims(ps, x, id),
{
    if claims(sites, x, id) {
        let k = choose|k: int|
            0 <= k < sites.len() && (#[trigger] sites[k]).id == id && within(sites[k].cidrs@, x);
        let i = lemma_given(sites, given, ps, k);
        assert(admitted(ps[i].blocks, x));
        assert(ps[i].id == id);
    }
    if part_claims(ps, x, id) {
        let i = choose|i: int|
            0 <= i < ps.len() && (#[trigger] ps[i]).id == id && admitted(ps[i].blocks, x);
        let k = lemma_kept(sites, given, ps, i);
        assert(sites[k].id == id && within(sites[k].cidrs@, x));
    }
}

proof fn lemma_part_lists(
    sites: Seq<Site>,
    given: Seq<Site>,
    ps: Seq<SiteParts>,
    label: Seq<u8>,
    id: u16,
)
    requires
        given_as(sites, given, ps),
    ensures
        lists(sites, label, id) <==> part_lists(ps, label, id),
{
    if lists(sites, label, id) {
        let k = choose|k: int|
            0 <= k < sites.len() && (#[trigger] sites[k]).id == id && names(sites[k], label);
        let i = lemma_given(sites, given, ps, k);
        lemma_labels(sites[k], ps[i], label);
        assert(ps[i].id == id);
    }
    if part_lists(ps, label, id) {
        let i = choose|i: int|
            0 <= i < ps.len() && (#[trigger] ps[i]).id == id && ps[i].labels.contains(label);
        let k = lemma_kept(sites, given, ps, i);
        lemma_labels(sites[k], ps[i], label);
        assert(sites[k].id == id);
    }
}

/// The sites of a table claim what is written for them, and nothing else.
pub proof fn law_sites_claim_what_is_written(
    sites: Seq<Site>,
    ps: Seq<SiteParts>,
    x: u128,
    label: Seq<u8>,
    id: u16,
)
    requires
        sites_are(sites, ps),
    ensures
        claims(sites, x, id) <==> part_claims(ps, x, id),
        lists(sites, label, id) <==> part_lists(ps, label, id),
{
    let given = choose|given: Seq<Site>|
        {
            &&& #[trigger] given.len() == ps.len()
            &&& given.to_multiset() == sites.to_multiset()
            &&& forall|i: int| 0 <= i < ps.len() ==> is_site(#[trigger] given[i], ps[i])
        };
    lemma_same_values(given, sites);
    assert(given_as(sites, given, ps));
    lemma_part_claims(sites, given, ps, x, id);
    lemma_part_lists(sites, given, ps, label, id);
}

fn check_members(members: &[String]) -> (r: Result<(), String>)
    ensures
        match r {
            Ok(_) => members_error(texts(members@)) is None,
            Err(e) => members_error(texts(members@)) == Some(e@),
        },
{
    let ghost all = texts(members@);
    let mut i: usize = 0;
    while i < members.len()
        invariant
            i <= members@.len(),
            all == texts(members@),
            members_error(all.take(i as int)) is None,
        decreases members@.len() - i,
    {
        assert(all.take(i + 1).drop_last() =~= all.take(i as int));
        assert(all.take(i + 1).last() == members@[i as int]@);
        if ref_of(&members[i]).is_none() {
            if let Err(e) = encode_member(None, &members[i]) {
                proof {
                    lemma_members_prefix(all, i + 1);
                }
                return Err(e);
            }
        }
        i += 1;
    }
    assert(all.take(i as int) =~= all);
    Ok(())
}

proof fn lemma_members_prefix(ms: Seq<Seq<char>>, n: int)
    requires
        0 <= n <= ms.len(),
        members_error(ms.take(n)) is Some,
    ensures
        members_error(ms) == members_error(ms.take(n)),
    decreases ms.len(),
{
    if n == ms.len() {
        assert(ms.take(n) =~= ms);
    } else {
        assert(ms.drop_last().take(n) =~= ms.take(n));
        lemma_members_prefix(ms.drop_last(), n);
    }
}

proof fn lemma_groups_prefix(gs: Seq<Named>, n: int)
    requires
        0 <= n <= gs.len(),
        groups_error(gs.take(n)) is Some,
    ensures
        groups_error(gs) == groups_error(gs.take(n)),
    decreases gs.len(),
{
    if n == gs.len() {
        assert(gs.take(n) =~= gs);
    } else {
        assert(gs.drop_last().take(n) =~= gs.take(n));
        lemma_groups_prefix(gs.drop_last(), n);
    }
}

fn check_groups(gs: &[(String, Vec<String>)]) -> (r: Result<(), String>)
    ensures
        match r {
            Ok(_) => groups_error(named(gs@)) is None,
            Err(e) => groups_error(named(gs@)) == Some(e@),
        },
{
    let ghost all = named(gs@);
    let mut i: usize = 0;
    while i < gs.len()
        invariant
            i <= gs@.len(),
            all == named(gs@),
            groups_error(all.take(i as int)) is None,
        decreases gs@.len() - i,
    {
        assert(all.take(i + 1).drop_last() =~= all.take(i as int));
        assert(all.take(i + 1).last() == (gs@[i as int].0@, texts(gs@[i as int].1@)));
        if let Err(e) = check_members(&gs[i].1) {
            proof {
                lemma_groups_prefix(all, i + 1);
            }
            return Err(e);
        }
        i += 1;
    }
    assert(all.take(i as int) =~= all);
    Ok(())
}

fn build_groups(gs: &[(String, Vec<String>)]) -> (r: Graph)
    ensures
        r@ == groups_made(named(gs@)),
{
    let ghost all = named(gs@);
    let mut out = Graph::default();
    let mut i: usize = 0;
    while i < gs.len()
        invariant
            i <= gs@.len(),
            all == named(gs@),
            out@ == groups_made(all.take(i as int)),
        decreases gs@.len() - i,
    {
        assert(all.take(i + 1).drop_last() =~= all.take(i as int));
        assert(all.take(i + 1).last() == (gs@[i as int].0@, texts(gs@[i as int].1@)));
        out.upsert(gs[i].0.clone(), copy_of(&gs[i].1));
        i += 1;
    }
    assert(all.take(i as int) =~= all);
    out
}

/// Build the table that is written in a config.
pub fn build_table(
    ula: &Option<String>,
    sites: &[(String, Vec<String>)],
    groups: &[(String, Vec<String>)],
) -> (r: Result<Table, String>)
    ensures
        match r {
            Ok(t) => {
                &&& table_error(opt_text(*ula), named(sites@), named(groups@)) is None
                &&& table_is(t@, opt_text(*ula), named(sites@), named(groups@))
            },
            Err(e) => table_error(opt_text(*ula), named(sites@), named(groups@)) == Some(e@),
        },
{
    let scheme = match ula {
        Some(u) => {
            let prefix = match parse_prefix(u) {
                Ok(p) => p,
                Err(e) => {
                    return Err(String::from_str(e));
                },
            };
            match build_sites(sites) {
                Ok(list) => {
                    let ghost given = list@;
                    let s = Scheme::new(prefix, list);
                    assert(given.len() == all_parts(named(sites@))->Ok_0.len());
                    Some(s)
                },
                Err(e) => {
                    return Err(e);
                },
            }
        },
        None => {
            if sites.len() > 0 {
                return Err(String::from_str("`sites` needs `ula` to encode into"));
            }
            if let Err(e) = check_groups(groups) {
                return Err(e);
            }
            None
        },
    };
    Ok(Table { scheme, groups: build_groups(groups) })
}

pub open spec fn opt_text(s: Option<String>) -> Option<Seq<char>> {
    match s {
        Some(t) => Some(t@),
        None => None,
    }
}

// --- what rules admit ---------------------------------------------------------

/// Some rule of the list holds the address.
pub open spec fn some_rule_admits(ts: Seq<Seq<char>>, x: u128) -> bool {
    exists|i: int| 0 <= i < ts.len() && rule_admits(#[trigger] ts[i], x)
}

/// The rule reads as a block that holds the address.
pub open spec fn rule_admits(rule: Seq<char>, x: u128) -> bool {
    cidr(rule) matches Ok(b) && b.contains(x)
}

/// What the member encodes to holds the address.
pub open spec fn member_admits(scheme: Option<SchemeView>, m: Seq<char>, x: u128) -> bool {
    member_texts(scheme, m) matches Ok(ts) && some_rule_admits(ts, x)
}

/// What some member of the list encodes to holds the address.
pub open spec fn some_member_admits(
    scheme: Option<SchemeView>,
    ms: Seq<Seq<char>>,
    x: u128,
) -> bool {
    exists|i: int| 0 <= i < ms.len() && member_admits(scheme, #[trigger] ms[i], x)
}

proof fn lemma_blocks_admit(ts: Seq<Seq<char>>, bs: Seq<Block>, x: u128)
    requires
        blocks(ts) == Ok::<Seq<Block>, Seq<char>>(bs),
    ensures
        bs.len() == ts.len(),
        admitted(bs, x) <==> some_rule_admits(ts, x),
    decreases ts.len(),
{
    if ts.len() > 0 {
        let head = ts.drop_last();
        let hb = blocks(head)->Ok_0;
        lemma_blocks_admit(head, hb, x);
        let n = ts.len() - 1;
        assert(bs == hb.push(cidr(ts.last())->Ok_0));
        if admitted(bs, x) {
            let i = choose|i: int| 0 <= i < bs.len() && (#[trigger] bs[i]).contains(x);
            if i < n {
                assert(hb[i].contains(x));
                let j = choose|j: int| 0 <= j < head.len() && rule_admits(#[trigger] head[j], x);
                assert(rule_admits(ts[j], x));
            } else {
                assert(rule_admits(ts[n], x));
            }
        }
        if some_rule_admits(ts, x) {
            let i = choose|i: int| 0 <= i < ts.len() && rule_admits(#[trigger] ts[i], x);
            if i < n {
                assert(rule_admits(head[i], x));
                let j = choose|j: int| 0 <= j < hb.len() && (#[trigger] hb[j]).contains(x);
                assert(bs[j].contains(x));
            } else {
                assert(bs[n].contains(x));
            }
        }
    }
}

proof fn lemma_rules_append(a: Seq<Seq<char>>, b: Seq<Seq<char>>, x: u128)
    ensures
        some_rule_admits(a + b, x) <==> some_rule_admits(a, x) || some_rule_admits(b, x),
{
    let both = a + b;
    if some_rule_admits(both, x) {
        let i = choose|i: int| 0 <= i < both.len() && rule_admits(#[trigger] both[i], x);
        if i < a.len() {
            assert(rule_admits(a[i], x));
        } else {
            assert(rule_admits(b[i - a.len()], x));
        }
    }
    if some_rule_admits(a, x) {
        let i = choose|i: int| 0 <= i < a.len() && rule_admits(#[trigger] a[i], x);
        assert(rule_admits(both[i], x));
    }
    if some_rule_admits(b, x) {
        let i = choose|i: int| 0 <= i < b.len() && rule_admits(#[trigger] b[i], x);
        assert(rule_admits(both[a.len() + i], x));
    }
}

proof fn lemma_members_append(scheme: Option<SchemeView>, ms: Seq<Seq<char>>, x: u128)
    requires
        ms.len() > 0,
    ensures
        some_member_admits(scheme, ms, x) <==> some_member_admits(scheme, ms.drop_last(), x)
            || member_admits(scheme, ms.last(), x),
{
    let head = ms.drop_last();
    if some_member_admits(scheme, ms, x) {
        let i = choose|i: int| 0 <= i < ms.len() && member_admits(scheme, #[trigger] ms[i], x);
        if i < head.len() {
            assert(member_admits(scheme, head[i], x));
        }
    }
    if some_member_admits(scheme, head, x) {
        let i = choose|i: int| 0 <= i < head.len() && member_admits(scheme, #[trigger] head[i], x);
        assert(member_admits(scheme, ms[i], x));
    }
    if member_admits(scheme, ms.last(), x) {
        assert(member_admits(scheme, ms[ms.len() - 1], x));
    }
}

proof fn lemma_members_admit(
    scheme: Option<SchemeView>,
    ms: Seq<Seq<char>>,
    ts: Seq<Seq<char>>,
    x: u128,
)
    requires
        encoded_list(scheme, ms) == Ok::<Seq<Seq<char>>, Seq<char>>(ts),
    ensures
        some_rule_admits(ts, x) <==> some_member_admits(scheme, ms, x),
    decreases ms.len(),
{
    if ms.len() > 0 {
        let head = encoded_list(scheme, ms.drop_last())->Ok_0;
        lemma_members_admit(scheme, ms.drop_last(), head, x);
        lemma_rules_append(head, member_texts(scheme, ms.last())->Ok_0, x);
        lemma_members_append(scheme, ms, x);
    }
}

/// A list admits exactly the addresses that its members encode to: nothing that no
/// member covers, and everything that one does.
pub proof fn law_list_admits_exactly_its_members(
    t: TableView,
    list: Seq<Seq<char>>,
    rs: Seq<Range>,
    x: u128,
)
    requires
        list_made(t, list, rs),
    ensures
        within(rs, x) <==> some_member_admits(t.scheme, expanded(t.groups, list), x),
{
    let ts = rules(t, list)->Ok_0;
    let bs = blocks(ts)->Ok_0;
    lemma_blocks_admit(ts, bs, x);
    lemma_members_admit(t.scheme, expanded(t.groups, list), ts, x);
    assert(within(rs, x) <==> admitted(bs, x));
}

/// An empty list denies everything, like an empty security group.
pub proof fn law_empty_list_denies(t: TableView, rs: Seq<Range>, x: u128)
    requires
        t.groups.dom().finite(),
        list_made(t, seq![], rs),
    ensures
        !within(rs, x),
{
    law_list_admits_exactly_its_members(t, seq![], rs, x);
    assert(expanded(t.groups, seq![]) =~= seq![]);
}

/// A header is admitted by a list that leads to a member which admits its address:
/// directly, or through any number of groups.
pub proof fn law_members_reach_through_groups(
    t: TableView,
    list: Seq<Seq<char>>,
    rs: Seq<Range>,
    m: Seq<char>,
    x: u128,
)
    requires
        t.groups.dom().finite(),
        list_made(t, list, rs),
        is_leaf(t.groups, seq![], m, true),
        leads(t.groups, seq![], list, m),
        member_admits(t.scheme, m, x),
    ensures
        within(rs, x),
{
    law_walk_finds_all_and_only(t.groups, seq![], list, true, m);
    law_list_admits_exactly_its_members(t, list, rs, x);
    let ms = expanded(t.groups, list);
    let i = choose|i: int| 0 <= i < ms.len() && ms[i] == m;
    assert(member_admits(t.scheme, ms[i], x));
}

/// `!*` admits the addresses of the declared sites, and no others.
#[verifier::rlimit(40)]
pub proof fn law_site_star_is_the_declared_sites(s: SchemeView, addr: Seq<u8>)
    requires
        s.well_formed(),
        s.site_net is Some,
        addr.len() == 16,
    ensures
        member_admits(Some(s), "!*"@, be(addr) as u128) <==> exists|id: u16| #[trigger]
            s.declares(id) && admits(site_space(s.site_net->Some_0, id), addr),
{
    let net = s.site_net->Some_0;
    let ts = all_site_spaces(s);
    let x = be(addr) as u128;
    if member_admits(Some(s), "!*"@, x) {
        let i = choose|i: int| 0 <= i < ts.len() && rule_admits(#[trigger] ts[i], x);
        assert(s.declares(s.sites[i].id));
        assert(ts[i] == site_space(net, s.sites[i].id));
    }
    if exists|id: u16| #[trigger] s.declares(id) && admits(site_space(net, id), addr) {
        let id = choose|id: u16| #[trigger] s.declares(id) && admits(site_space(net, id), addr);
        let i = choose|i: int| 0 <= i < s.sites.len() && (#[trigger] s.sites[i]).id == id;
        assert(rule_admits(ts[i], x));
    }
}

/// The quarantine site cannot be declared, so `!*` never admits what is contested.
pub proof fn law_site_star_leaves_quarantine_out(
    t: TableView,
    ula: Option<Seq<char>>,
    sites: Seq<Named>,
    gs: Seq<Named>,
    addr: Seq<u8>,
)
    requires
        table_is(t, ula, sites, gs),
        ula is Some,
        t.scheme->Some_0.well_formed(),
        addr.len() == 16,
        admits(site_space(t.scheme->Some_0.site_net->Some_0, SITE_CONTESTED), addr),
    ensures
        !member_admits(t.scheme, "!*"@, be(addr) as u128),
{
    let s = t.scheme->Some_0;
    let net = s.site_net->Some_0;
    let ps = all_parts(sites)->Ok_0;
    law_site_star_is_the_declared_sites(s, addr);
    if exists|id: u16| #[trigger] s.declares(id) && admits(site_space(net, id), addr) {
        let id = choose|id: u16| #[trigger] s.declares(id) && admits(site_space(net, id), addr);
        law_site_spaces_are_disjoint(net, id, SITE_CONTESTED, addr);
        let k = choose|k: int| 0 <= k < s.sites.len() && (#[trigger] s.sites[k]).id == id;
        let given = choose|given: Seq<Site>|
            {
                &&& #[trigger] given.len() == ps.len()
                &&& given.to_multiset() == s.sites.to_multiset()
                &&& forall|i: int| 0 <= i < ps.len() ==> is_site(#[trigger] given[i], ps[i])
            };
        lemma_same_values(given, s.sites);
        let i = lemma_given(s.sites, given, ps, k);
        lemma_ids_are_declarable(sites, i);
    }
}

proof fn lemma_ids_are_declarable(sites: Seq<Named>, i: int)
    requires
        all_parts(sites) is Ok,
        0 <= i < all_parts(sites)->Ok_0.len(),
    ensures
        all_parts(sites)->Ok_0[i].id != SITE_CONTESTED,
    decreases sites.len(),
{
    let head = sites.drop_last();
    let hp = all_parts(head)->Ok_0;
    crate::text::lemma_uint_bound(sites.last().0, u16::MAX as int);
    if i < hp.len() {
        lemma_ids_are_declarable(head, i);
    }
}

// --- what a site's sources claim ----------------------------------------------

proof fn lemma_white_ends(m: Seq<char>)
    requires
        m.len() > 0,
        !is_white(m[0]),
        !is_white(m.last()),
    ensures
        tidied(seq![m]) == seq![m],
{
    law_trimming_keeps_the_core(seq![], m, seq![]);
    assert(Seq::<char>::empty() + m + Seq::<char>::empty() =~= m);
    law_tidying_goes_piece_by_piece(seq![], m, seq![]);
}

proof fn lemma_head_and_tail(head: Seq<char>, tail: Seq<char>)
    requires
        forall|i: int| 0 <= i < head.len() ==> #[trigger] head[i] != '/',
    ensures
        find(head, '/') == head.len(),
        head.take(head.len() as int) == head,
        find(head.push('/') + tail, '/') == head.len(),
        (head.push('/') + tail).len() > head.len(),
        (head.push('/') + tail).take(head.len() as int) == head,
        (head.push('/') + tail).skip(head.len() as int + 1) == tail,
{
    lemma_find_is(head, '/', head.len() as int);
    assert(head.take(head.len() as int) =~= head);
    let m = head.push('/') + tail;
    assert forall|i: int| 0 <= i < head.len() implies m[i] != '/' by {
        assert(m[i] == head[i]);
    }
    assert(m[head.len() as int] == '/');
    lemma_find_is(m, '/', head.len() as int);
    assert(m.take(head.len() as int) =~= head);
    assert(m.skip(head.len() as int + 1) =~= tail);
}

proof fn lemma_one_piece(m: Seq<char>)
    requires
        m.len() > 0,
        '!' <= m[0] <= '~',
        '!' <= m.last() <= '~',
    ensures
        tidied(seq![m]) == seq![m],
{
    law_what_is_white();
    law_trimming_keeps_the_core(seq![], m, seq![]);
    assert(Seq::<char>::empty() + m + Seq::<char>::empty() =~= m);
    law_tidying_goes_piece_by_piece(seq![], m, seq![]);
}

proof fn lemma_one_net(n: u16, m: Seq<char>, o: Seq<u8>, bits: int)
    requires
        n > 0,
        m.len() > 0,
        '!' <= m[0] <= '~',
        '!' <= m.last() <= '~',
        o.len() == 16,
        0 <= bits <= 128,
        classified(m) == Ok::<Option<Seq<char>>, Seq<char>>(Some(net_text(o, bits))),
    ensures
        site_parts(numeral(n as int, false), seq![m]) == Ok::<SiteParts, Seq<char>>(
            SiteParts { id: n, labels: seq![], blocks: seq![Block { base: be(o), bits }] },
        ),
{
    lemma_uint_of_numeral(n as int, u16::MAX as int);
    lemma_one_piece(m);
    let list = seq![m];
    assert(list.drop_last() =~= seq![]);
    assert(sorted_out(list.drop_last()) == Ok::<(Seq<Seq<u8>>, Seq<Seq<char>>), Seq<char>>(
        (seq![], seq![]),
    ));
    let nets = seq![net_text(o, bits)];
    assert(Seq::<Seq<char>>::empty().push(net_text(o, bits)) =~= nets);
    assert(sorted_out(list) == Ok::<(Seq<Seq<u8>>, Seq<Seq<char>>), Seq<char>>((seq![], nets)));
    assert(nets.drop_last() =~= seq![]);
    assert(blocks(nets.drop_last()) == Ok::<Seq<Block>, Seq<char>>(seq![]));
    law_net_text_reads_back(o, bits);
    assert(Seq::<Block>::empty().push(Block { base: be(o), bits }) =~= seq![
        Block { base: be(o), bits },
    ]);
}

proof fn lemma_one_block(site: Site, p: SiteParts, b: Block, x: u128)
    requires
        is_site(site, p),
        p.blocks == seq![b],
    ensures
        has_address(site, x as int) <==> covers(b.base, b.bits, x as int),
{
    lemma_within(site, x);
    assert(within(site.cidrs@, x) <==> admitted(p.blocks, x));
    assert(p.blocks[0] == b);
    if covers(b.base, b.bits, x as int) {
        assert(p.blocks[0].contains(x));
    }
}

proof fn lemma_ends_of_source(m: Seq<char>, head: Seq<char>, bits: int, whole: int)
    requires
        head.len() > 0,
        all_address_chars(head),
        bits >= 0,
        is_source(m, head, bits, whole),
    ensures
        m.len() > 0,
        '!' <= m[0] <= '~',
        '!' <= m.last() <= '~',
{
    assert(is_address_char(head[0]));
    assert(is_address_char(head[head.len() - 1]));
    let tail = numeral(bits, false);
    lemma_numeral(bits, false);
    lemma_uint_of_numeral(bits, bits);
    if m == head.push('/') + tail {
        assert(m[0] == head[0]);
        assert(tail.len() > 0);
        assert(m.last() == tail[tail.len() - 1]);
        assert(is_digit(tail[tail.len() - 1], false));
    }
}

proof fn lemma_whole_width(base: int, x: int)
    ensures
        covers(base, 128, x) <==> base == x,
{
    lemma2_to64();
    assert(block(128) == 1);
}

/// A site with an IPv6 source claims the addresses of that block, and a bare address is
/// that one address.
pub proof fn law_v6_source_claims_its_block(
    n: u16,
    m: Seq<char>,
    o: Seq<u8>,
    bits: int,
    site: Site,
    x: u128,
)
    requires
        n > 0,
        o.len() == 16,
        0 <= bits <= 128,
        is_source(m, v6_text(o), bits, 128),
    ensures
        site_parts(numeral(n as int, false), seq![m]) matches Ok(p) && (is_site(site, p) ==> {
            &&& site.id == n
            &&& site.vpce@.len() == 0
            &&& has_address(site, x as int) <==> covers(be(o), bits, x as int)
            &&& m == v6_text(o) ==> (has_address(site, x as int) <==> x == be(o))
        }),
{
    let head = v6_text(o);
    law_v6_text_reads_back(o);
    lemma_v6_is_text(head);
    lemma_source_text(head, bits);
    lemma_uint_of_numeral(bits, u8::MAX as int);
    lemma_ends_of_source(m, head, bits, 128);
    if v4(head) is Some {
        law_v4_is_not_v6(head);
    }
    assert(classified(m) == Ok::<Option<Seq<char>>, Seq<char>>(Some(net_text(o, bits))));
    lemma_one_net(n, m, o, bits);
    let p = site_parts(numeral(n as int, false), seq![m])->Ok_0;
    if is_site(site, p) {
        assert(octet_strings(site.vpce@).len() == site.vpce@.len());
        lemma_one_block(site, p, Block { base: be(o), bits }, x);
        if m == head {
            lemma_text_without_width(head, bits);
            lemma_whole_width(be(o), x as int);
        }
    }
}

proof fn lemma_text_without_width(head: Seq<char>, bits: int)
    requires
        all_address_chars(head),
        bits >= 0,
    ensures
        head != head.push('/') + numeral(bits, false),
{
    lemma_source_text(head, bits);
}

/// A site with an IPv4 source claims the mapped addresses of that block, and a bare
/// address is that one address.
pub proof fn law_v4_source_claims_its_block(
    n: u16,
    m: Seq<char>,
    q: Seq<u8>,
    bits: int,
    site: Site,
    x: u128,
)
    requires
        n > 0,
        q.len() == 4,
        0 <= bits <= 32,
        is_source(m, v4_text(q), bits, 32),
    ensures
        site_parts(numeral(n as int, false), seq![m]) matches Ok(p) && (is_site(site, p) ==> {
            &&& site.id == n
            &&& site.vpce@.len() == 0
            &&& has_address(site, x as int) <==> covers(
                0xffff_0000_0000 + be(q),
                96 + bits,
                x as int,
            )
            &&& m == v4_text(q) ==> (has_address(site, x as int) <==> x == 0xffff_0000_0000 + be(
                q,
            ))
        }),
{
    let head = v4_text(q);
    law_v4_text_reads_back(q);
    lemma_v4_is_text(head);
    lemma_source_text(head, bits);
    lemma_uint_of_numeral(bits, u8::MAX as int);
    lemma_ends_of_source(m, head, bits, 32);
    law_mapped_number(q);
    assert(classified(m) == Ok::<Option<Seq<char>>, Seq<char>>(
        Some(net_text(mapped_octets(q), 96 + bits)),
    ));
    lemma_one_net(n, m, mapped_octets(q), 96 + bits);
    let p = site_parts(numeral(n as int, false), seq![m])->Ok_0;
    if is_site(site, p) {
        assert(octet_strings(site.vpce@).len() == site.vpce@.len());
        lemma_one_block(site, p, Block { base: be(mapped_octets(q)), bits: 96 + bits }, x);
        if m == head {
            lemma_text_without_width(head, bits);
            lemma_whole_width(be(mapped_octets(q)), x as int);
        }
    }
}

/// A source that is no address, with a width behind it or without, is an endpoint id,
/// taken whole as it is written, and claims no address.
pub proof fn law_label_source_is_taken_as_written(
    n: u16,
    m: Seq<char>,
    head: Seq<char>,
    tail: Seq<char>,
    site: Site,
    label: Seq<u8>,
    x: u128,
)
    requires
        n > 0,
        m.len() > 0,
        !is_white(m[0]),
        !is_white(m.last()),
        forall|i: int| 0 <= i < head.len() ==> #[trigger] head[i] != '/',
        m == head || m == head + seq!['/'] + tail && uint(tail, 255) is Some,
        v4(head) is None,
        v6(head) is None,
    ensures
        site_parts(numeral(n as int, false), seq![m]) matches Ok(p) && (is_site(site, p) ==> {
            &&& site.id == n
            &&& has_label(site, label) <==> label == encode_utf8(m)
            &&& !has_address(site, x as int)
        }),
{
    lemma_uint_of_numeral(n as int, u16::MAX as int);
    lemma_white_ends(m);
    lemma_head_and_tail(head, tail);
    assert(head + seq!['/'] + tail =~= head.push('/') + tail);
    let list = seq![m];
    assert(list.drop_last() =~= seq![]);
    assert(sorted_out(list.drop_last()) == Ok::<(Seq<Seq<u8>>, Seq<Seq<char>>), Seq<char>>(
        (seq![], seq![]),
    ));
    let labels = seq![encode_utf8(m)];
    assert(Seq::<Seq<u8>>::empty().push(encode_utf8(m)) =~= labels);
    assert(sorted_out(list) == Ok::<(Seq<Seq<u8>>, Seq<Seq<char>>), Seq<char>>((labels, seq![])));
    let p = site_parts(numeral(n as int, false), list)->Ok_0;
    assert(p.labels == labels && p.blocks == Seq::<Block>::empty());
    if is_site(site, p) {
        lemma_within(site, x);
        assert(within(site.cidrs@, x) <==> admitted(p.blocks, x));
        let all = octet_strings(site.vpce@);
        assert(all.len() == site.vpce@.len());
        assert(all[0] == site.vpce@[0]@);
        assert(labels[0] == encode_utf8(m));
        if has_label(site, label) {
            let k = choose|k: int| 0 <= k < site.vpce@.len() && (#[trigger] site.vpce@[k])@ == label;
            assert(k == 0);
        }
    }
}

proof fn lemma_address_ends(head: Seq<char>, tail: Seq<char>, max: int)
    requires
        v4(head) is Some || v6(head) is Some,
        uint(tail, max) is Some,
    ensures
        forall|i: int| 0 <= i < head.len() ==> #[trigger] head[i] != '/',
        tidied(seq![head]) == seq![head],
        tidied(seq![head.push('/') + tail]) == seq![head.push('/') + tail],
{
    law_addresses_have_address_chars(head);
    law_only_digits_are_decimals(tail, max);
    law_what_is_white();
    let m = head.push('/') + tail;
    assert(m[0] == head[0]);
    assert(m.last() == tail[tail.len() - 1]);
    assert(!is_white(head[0]) && !is_white(head[head.len() - 1]));
    assert(!is_white(tail[tail.len() - 1]));
    lemma_white_ends(head);
    lemma_white_ends(m);
}

proof fn lemma_same_source(key: Seq<char>, a: Seq<char>, b: Seq<char>)
    requires
        tidied(seq![a]) == seq![a],
        tidied(seq![b]) == seq![b],
        classified(a) == classified(b),
        classified(a) matches Ok(Some(_)),
    ensures
        site_parts(key, seq![a]) == site_parts(key, seq![b]),
{
    let x = seq![a];
    let y = seq![b];
    assert(x.drop_last() =~= y.drop_last());
    assert(x.last() == a && y.last() == b);
}

/// An address may be spelled in more ways than one, and so may a width: a source claims
/// the same however it is written.
pub proof fn law_spelling_makes_no_difference(
    key: Seq<char>,
    head: Seq<char>,
    tail: Seq<char>,
    bits: int,
)
    requires
        uint(tail, 255) == Some(bits),
    ensures
        v6(head) matches Some(o) ==> {
            &&& site_parts(key, seq![head]) == site_parts(key, seq![v6_text(o)])
            &&& bits <= 128 ==> site_parts(key, seq![head.push('/') + tail]) == site_parts(
                key,
                seq![v6_text(o).push('/') + numeral(bits, false)],
            )
        },
        v4(head) matches Some(q) ==> {
            &&& head == v4_text(q)
            &&& bits <= 32 ==> site_parts(key, seq![head.push('/') + tail]) == site_parts(
                key,
                seq![v4_text(q).push('/') + numeral(bits, false)],
            )
        },
{
    lemma_uint_bound(tail, 255);
    let w = numeral(bits, false);
    lemma_uint_of_numeral(bits, 255);
    if let Some(o) = v6(head) {
        let text = v6_text(o);
        law_v6_text_reads_back(o);
        lemma_address_ends(head, tail, 255);
        lemma_address_ends(text, w, 255);
        lemma_head_and_tail(head, tail);
        lemma_head_and_tail(text, w);
        if v4(head) is Some {
            law_v4_is_not_v6(head);
        }
        if v4(text) is Some {
            law_v4_is_not_v6(text);
        }
        lemma_same_source(key, head, text);
        lemma_same_source(key, head.push('/') + tail, text.push('/') + w);
    }
    if let Some(q) = v4(head) {
        law_only_its_own_text_is_v4(head, q);
        lemma_address_ends(head, tail, 255);
        lemma_address_ends(head, w, 255);
        lemma_head_and_tail(head, tail);
        lemma_head_and_tail(head, w);
        if bits <= 32 {
            lemma_same_source(key, head.push('/') + tail, head.push('/') + w);
        }
    }
}

/// A site has the number that its key writes.
pub proof fn law_site_has_the_number_of_its_key(key: Seq<char>, a: Seq<Seq<char>>)
    ensures
        site_parts(key, a) matches Ok(p) ==> uint(key, 65535) == Some(p.id as int) && p.id != 0,
        uint(key, 65535) matches Some(n) && n != 0 ==> site_parts(key, a) == site_parts(
            numeral(uint(key, 65535)->Some_0, false),
            a,
        ),
{
    lemma_uint_bound(key, 65535);
    if uint(key, 65535) is Some {
        lemma_uint_of_numeral(uint(key, 65535)->Some_0, 65535);
    }
}

/// Why a site is refused, where one thing is wrong with it.
pub proof fn law_refused_sites_say_why(
    key: Seq<char>,
    a: Seq<Seq<char>>,
    head: Seq<char>,
    tail: Seq<char>,
)
    requires
        head.len() > 0,
        !is_white(head[0]),
        tail.len() > 0 ==> !is_white(tail.last()),
        forall|i: int| 0 <= i < head.len() ==> #[trigger] head[i] != '/',
    ensures
        uint(key, 65535) is None || uint(key, 65535) == Some(0int) ==> site_parts(key, a) == Err::<
            SiteParts,
            Seq<char>,
        >("site key "@ + quoted(key) + " is not 1-65535"@),
        uint(key, 65535) is Some && uint(key, 65535) != Some(0int) ==> {
            let m = head.push('/') + tail;
            &&& uint(tail, 255) is None ==> site_parts(key, seq![m]) == Err::<SiteParts, Seq<char>>(
                "bad prefix length in site source "@ + quoted(m),
            )
            &&& uint(tail, 255) is Some && uint(tail, 32) is None && v4(head) is Some
                ==> site_parts(key, seq![m]) == Err::<SiteParts, Seq<char>>(
                "prefix length above /32 in site source "@ + quoted(m),
            )
            &&& uint(tail, 255) is Some && uint(tail, 128) is None && v6(head) is Some
                ==> site_parts(key, seq![m]) == Err::<SiteParts, Seq<char>>(
                "prefix length above 128"@,
            )
        },
{
    let m = head.push('/') + tail;
    lemma_head_and_tail(head, tail);
    law_what_is_white();
    assert(m[0] == head[0]);
    assert(tail.len() > 0 ==> m.last() == tail.last());
    assert(tail.len() == 0 ==> m.last() == '/');
    lemma_white_ends(m);
    let list = seq![m];
    assert(list.drop_last() =~= seq![]);
    assert(sorted_out(list.drop_last()) == Ok::<(Seq<Seq<u8>>, Seq<Seq<char>>), Seq<char>>(
        (seq![], seq![]),
    ));
    assert(list.last() == m);
    lemma_uint_bound(tail, 255);
    if v6(head) is Some && uint(tail, 255) is Some && uint(tail, 128) is None {
        if v4(head) is Some {
            law_v4_is_not_v6(head);
        }
        let o = v6(head)->Some_0;
        let bits = uint(tail, 255)->Some_0;
        let text = v6_text(o);
        law_v6_text_reads_back(o);
        law_addresses_have_address_chars(text);
        lemma_uint_of_numeral(bits, 0xffff_ffff);
        lemma_uint_of_numeral(bits, 255);
        law_decimals_above_the_limit_are_refused(numeral(bits, false), 128, 0xffff_ffff);
        law_bad_entries_are_refused(text, numeral(bits, false));
        let nets = seq![net_text(o, bits)];
        assert(nets.drop_last() =~= seq![]);
        assert(blocks(nets.drop_last()) == Ok::<Seq<Block>, Seq<char>>(seq![]));
        assert(Seq::<Seq<char>>::empty().push(net_text(o, bits)) =~= nets);
        assert(sorted_out(list) == Ok::<(Seq<Seq<u8>>, Seq<Seq<char>>), Seq<char>>((seq![], nets)));
    }
}

/// A site's sources are taken one by one: what two lists come to, they come to together.
#[verifier::rlimit(40)]
pub proof fn law_sources_add_up(key: Seq<char>, a: Seq<Seq<char>>, b: Seq<Seq<char>>)
    requires
        site_parts(key, a) is Ok,
        site_parts(key, b) is Ok,
    ensures
        site_parts(key, a + b) == Ok::<SiteParts, Seq<char>>(
            SiteParts {
                id: site_parts(key, a)->Ok_0.id,
                labels: site_parts(key, a)->Ok_0.labels + site_parts(key, b)->Ok_0.labels,
                blocks: site_parts(key, a)->Ok_0.blocks + site_parts(key, b)->Ok_0.blocks,
            },
        ),
        site_parts(key, a)->Ok_0.id == site_parts(key, b)->Ok_0.id,
{
    law_tidying_goes_piece_by_piece(a, seq![], b);
    lemma_sorted_out_append(tidied(a), tidied(b));
    let (la, na) = sorted_out(tidied(a))->Ok_0;
    let (lb, nb) = sorted_out(tidied(b))->Ok_0;
    lemma_blocks_append(na, nb);
}

proof fn lemma_sorted_out_append(a: Seq<Seq<char>>, b: Seq<Seq<char>>)
    requires
        sorted_out(a) is Ok,
        sorted_out(b) is Ok,
    ensures
        sorted_out(a + b) == Ok::<(Seq<Seq<u8>>, Seq<Seq<char>>), Seq<char>>(
            (
                sorted_out(a)->Ok_0.0 + sorted_out(b)->Ok_0.0,
                sorted_out(a)->Ok_0.1 + sorted_out(b)->Ok_0.1,
            ),
        ),
    decreases b.len(),
{
    let (la, na) = sorted_out(a)->Ok_0;
    let (lb, nb) = sorted_out(b)->Ok_0;
    if b.len() == 0 {
        assert(a + b =~= a);
        assert(la + lb =~= la);
        assert(na + nb =~= na);
    } else {
        let head = b.drop_last();
        lemma_sorted_out_append(a, head);
        assert((a + b).drop_last() =~= a + head);
        assert((a + b).last() == b.last());
        let (lh, nh) = sorted_out(head)->Ok_0;
        match classified(b.last()) {
            Ok(Some(net)) => {
                assert((na + nh).push(net) =~= na + nb);
            },
            _ => {
                assert((la + lh).push(encode_utf8(b.last())) =~= la + lb);
            },
        }
    }
}

/// White space round a source makes no difference, and a blank one is passed over.
pub proof fn law_sources_are_trimmed(
    key: Seq<char>,
    a: Seq<Seq<char>>,
    front: Seq<char>,
    m: Seq<char>,
    back: Seq<char>,
    b: Seq<Seq<char>>,
)
    requires
        forall|i: int| 0 <= i < front.len() ==> is_white(#[trigger] front[i]),
        forall|i: int| 0 <= i < back.len() ==> is_white(#[trigger] back[i]),
        m.len() > 0 ==> !is_white(m[0]) && !is_white(m.last()),
    ensures
        site_parts(key, a + seq![front + m + back] + b) == site_parts(key, a + seq![m] + b),
        site_parts(key, a + seq![front] + b) == site_parts(key, a + b),
{
    let none: Seq<char> = seq![];
    law_trimming_keeps_the_core(front, m, back);
    law_trimming_keeps_the_core(none, m, none);
    assert(none + m + none =~= m);
    law_trimming_keeps_the_core(front, none, none);
    assert(front + none + none =~= front);
    lemma_tidied_three(a, front + m + back, b);
    lemma_tidied_three(a, m, b);
    lemma_tidied_three(a, front, b);
    law_tidying_goes_piece_by_piece(a, none, b);
    assert(tidied(a) + Seq::<Seq<char>>::empty() + tidied(b) =~= tidied(a) + tidied(b));
}

proof fn lemma_tidied_three(a: Seq<Seq<char>>, m: Seq<char>, b: Seq<Seq<char>>)
    ensures
        tidied(a + seq![m] + b) == tidied(a) + (if trimmed(m).len() > 0 {
            seq![trimmed(m)]
        } else {
            seq![]
        }) + tidied(b),
{
    law_tidying_goes_piece_by_piece(a + seq![m], m, b);
    law_tidying_goes_piece_by_piece(a, m, seq![m]);
}

/// A site is refused whose key is no number from 1 to 65535, or with a source whose
/// width is not one its address can have. What stands beside the bad source cannot
/// save it.
#[verifier::rlimit(40)]
pub proof fn law_bad_sites_are_refused(
    key: Seq<char>,
    a: Seq<Seq<char>>,
    head: Seq<char>,
    tail: Seq<char>,
    b: Seq<Seq<char>>,
)
    requires
        all_address_chars(head),
        head.len() > 0,
        tail.len() > 0 ==> !is_white(tail.last()),
    ensures
        uint(key, 65535) is None || uint(key, 65535) == Some(0int) ==> site_parts(key, a) is Err,
        uint(tail, 255) is None ==> site_parts(key, a + seq![head.push('/') + tail] + b) is Err,
        v4(head) is Some && uint(tail, 32) is None ==> site_parts(
            key,
            a + seq![head.push('/') + tail] + b,
        ) is Err,
        v6(head) is Some && uint(tail, 128) is None ==> site_parts(
            key,
            a + seq![head.push('/') + tail] + b,
        ) is Err,
{
    let m = head.push('/') + tail;
    assert forall|i: int| 0 <= i < head.len() implies m[i] != '/' by {
        assert(m[i] == head[i]);
        assert(is_address_char(head[i]));
    }
    assert(m[head.len() as int] == '/');
    lemma_find_is(m, '/', head.len() as int);
    assert(m.take(head.len() as int) =~= head);
    assert(m.skip(head.len() as int + 1) =~= tail);
    law_what_is_white();
    let none: Seq<char> = seq![];
    assert(m[0] == head[0] && is_address_char(head[0]));
    assert(tail.len() > 0 ==> m.last() == tail.last());
    law_trimming_keeps_the_core(none, m, none);
    assert(none + m + none =~= m);
    lemma_tidied_three(a, m, b);
    let list = tidied(a) + seq![m] + tidied(b);
    let bad = uint(tail, 255) is None || (v4(head) is Some && uint(tail, 32) is None) || (v6(
        head,
    ) is Some && uint(tail, 128) is None);
    if bad {
        if v4(head) is Some {
            law_v4_is_not_v6(head);
        }
        if sorted_out(list) is Ok {
            lemma_each_sorted(list, tidied(a).len() as int);
            assert(list[tidied(a).len() as int] == m);
            let net = classified(m)->Ok_0->Some_0;
            if v6(head) is Some {
                let o = v6(head)->Some_0;
                let bits = uint(tail, 255)->Some_0;
                lemma_uint_bound(tail, 255);
                lemma_wide_net(o, bits);
                lemma_each_block(sorted_out(list)->Ok_0.1, net);
            }
        }
    }
}

proof fn lemma_wide_net(o: Seq<u8>, bits: int)
    requires
        o.len() == 16,
        128 < bits <= 255,
    ensures
        cidr(net_text(o, bits)) is Err,
{
    law_v6_text_reads_back(o);
    lemma_source_text(v6_text(o), bits);
    lemma_uint_of_numeral(bits, u32::MAX as int);
}

proof fn lemma_each_sorted(list: Seq<Seq<char>>, i: int)
    requires
        sorted_out(list) is Ok,
        0 <= i < list.len(),
    ensures
        classified(list[i]) matches Ok(c) && (c matches Some(net) ==> sorted_out(
            list,
        )->Ok_0.1.contains(net)),
    decreases list.len(),
{
    let nets = sorted_out(list)->Ok_0.1;
    if i < list.len() - 1 {
        let head = list.drop_last();
        lemma_each_sorted(head, i);
        assert(head[i] == list[i]);
        if let Ok(Some(net)) = classified(list[i]) {
            let few = sorted_out(head)->Ok_0.1;
            let k = choose|k: int| 0 <= k < few.len() && few[k] == net;
            assert(nets[k] == net);
        }
    } else if let Ok(Some(net)) = classified(list.last()) {
        assert(nets.last() == net);
        assert(nets[nets.len() - 1] == net);
    }
}

proof fn lemma_each_block(words: Seq<Seq<char>>, w: Seq<char>)
    requires
        words.contains(w),
        cidr(w) is Err,
    ensures
        blocks(words) is Err,
    decreases words.len(),
{
    let k = choose|k: int| 0 <= k < words.len() && words[k] == w;
    if k < words.len() - 1 {
        assert(words.drop_last()[k] == w);
        lemma_each_block(words.drop_last(), w);
    }
}

/// All the sites are read or none: each on its own, in the order written, and the first
/// that is refused refuses them all.
pub proof fn law_sites_are_read_one_by_one(sites: Seq<Named>)
    ensures
        match all_parts(sites) {
            Ok(ps) => ps.len() == sites.len() && forall|i: int|
                0 <= i < sites.len() ==> site_parts((#[trigger] sites[i]).0, sites[i].1) == Ok::<
                    SiteParts,
                    Seq<char>,
                >(ps[i]),
            Err(e) => exists|i: int|
                {
                    &&& 0 <= i < sites.len()
                    &&& site_parts((#[trigger] sites[i]).0, sites[i].1) == Err::<
                        SiteParts,
                        Seq<char>,
                    >(e)
                    &&& forall|j: int|
                        0 <= j < i ==> site_parts((#[trigger] sites[j]).0, sites[j].1) is Ok
                },
        },
    decreases sites.len(),
{
    if sites.len() > 0 {
        let head = sites.drop_last();
        let n = sites.len() - 1;
        law_sites_are_read_one_by_one(head);
        assert(forall|i: int| 0 <= i < n ==> head[i] == #[trigger] sites[i]);
        match all_parts(head) {
            Err(e) => {
                let i = choose|i: int|
                    {
                        &&& 0 <= i < head.len()
                        &&& site_parts((#[trigger] head[i]).0, head[i].1) == Err::<
                            SiteParts,
                            Seq<char>,
                        >(e)
                        &&& forall|j: int|
                            0 <= j < i ==> site_parts((#[trigger] head[j]).0, head[j].1) is Ok
                    };
                assert(sites[i] == head[i]);
                assert forall|j: int| 0 <= j < i implies site_parts(
                    (#[trigger] sites[j]).0,
                    sites[j].1,
                ) is Ok by {
                    assert(site_parts(head[j].0, head[j].1) is Ok);
                }
            },
            Ok(hp) => {
                assert forall|i: int| 0 <= i < n implies site_parts(
                    (#[trigger] sites[i]).0,
                    sites[i].1,
                ) is Ok by {
                    assert(site_parts(head[i].0, head[i].1) == Ok::<SiteParts, Seq<char>>(hp[i]));
                }
                match site_parts(sites.last().0, sites.last().1) {
                    Err(e) => {
                        assert(site_parts(sites[n].0, sites[n].1) == Err::<SiteParts, Seq<char>>(e));
                    },
                    Ok(p) => {
                        let ps = all_parts(sites)->Ok_0;
                        assert forall|i: int| 0 <= i < sites.len() implies site_parts(
                            (#[trigger] sites[i]).0,
                            sites[i].1,
                        ) == Ok::<SiteParts, Seq<char>>(ps[i]) by {
                            if i < n {
                                assert(site_parts(head[i].0, head[i].1) == Ok::<
                                    SiteParts,
                                    Seq<char>,
                                >(hp[i]));
                            }
                        }
                    },
                }
            },
        }
    }
}

// --- what a table is made of --------------------------------------------------

/// A name has the members that were written for it last, and a name that was not written
/// has none.
pub proof fn law_groups_are_as_written(gs: Seq<Named>, name: Seq<char>, i: int)
    ensures
        (forall|j: int| 0 <= j < gs.len() ==> (#[trigger] gs[j]).0 != name)
            ==> !groups_made(gs).dom().contains((Seq::<char>::empty(), name)),
        0 <= i < gs.len() && gs[i].0 == name && (forall|j: int|
            i < j < gs.len() ==> (#[trigger] gs[j]).0 != name) ==> groups_made(gs).dom().contains(
            (Seq::<char>::empty(), name),
        ) && groups_made(gs)[(Seq::<char>::empty(), name)] == gs[i].1,
    decreases gs.len(),
{
    if gs.len() > 0 {
        let head = gs.drop_last();
        let n = gs.len() - 1;
        law_groups_are_as_written(head, name, i);
        assert(forall|j: int| 0 <= j < n ==> #[trigger] gs[j] == head[j]);
        if gs[n].0 != name {
            assert(key_of(gs[n].0) != key_of(name));
        }
    }
}

/// With a prefix that reads and sites that read, a table is never refused; with one that
/// does not read it always is, the prefix first.
pub proof fn law_tables_with_a_prefix(u: Seq<char>, sites: Seq<Named>, gs: Seq<Named>)
    ensures
        table_error(Some(u), sites, gs) is None <==> prefix_of(u) is Ok && forall|i: int|
            0 <= i < sites.len() ==> site_parts((#[trigger] sites[i]).0, sites[i].1) is Ok,
        prefix_of(u) matches Err(e) ==> table_error(Some(u), sites, gs) == Some(e),
{
    law_sites_are_read_one_by_one(sites);
    if all_parts(sites) is Err {
        let e = all_parts(sites)->Err_0;
        let i = choose|i: int|
            0 <= i < sites.len() && site_parts((#[trigger] sites[i]).0, sites[i].1) == Err::<
                SiteParts,
                Seq<char>,
            >(e);
        assert(site_parts(sites[i].0, sites[i].1) is Err);
    }
}

proof fn lemma_members_ok(members: Seq<Seq<char>>)
    ensures
        members_error(members) is None <==> forall|j: int|
            0 <= j < members.len() ==> ref_name(#[trigger] members[j]) is Some || encoded_bare(
                members[j],
            ) is Ok,
    decreases members.len(),
{
    if members.len() > 0 {
        let head = members.drop_last();
        let n = members.len() - 1;
        lemma_members_ok(head);
        assert(forall|j: int| 0 <= j < n ==> #[trigger] members[j] == head[j]);
        if members_error(members) is None {
            assert forall|j: int| 0 <= j < members.len() implies ref_name(#[trigger] members[j]) is Some
                || encoded_bare(members[j]) is Ok by {
                if j < n {
                    assert(ref_name(head[j]) is Some || encoded_bare(head[j]) is Ok);
                }
            }
        }
        if forall|j: int|
            0 <= j < members.len() ==> ref_name(#[trigger] members[j]) is Some || encoded_bare(
                members[j],
            ) is Ok {
            assert forall|j: int| 0 <= j < head.len() implies ref_name(#[trigger] head[j]) is Some
                || encoded_bare(head[j]) is Ok by {
                assert(ref_name(members[j]) is Some || encoded_bare(members[j]) is Ok);
            }
            assert(ref_name(members[n]) is Some || encoded_bare(members[n]) is Ok);
        }
    }
}

proof fn lemma_groups_ok(gs: Seq<Named>)
    ensures
        groups_error(gs) is None <==> forall|i: int|
            0 <= i < gs.len() ==> members_error((#[trigger] gs[i]).1) is None,
    decreases gs.len(),
{
    if gs.len() > 0 {
        let head = gs.drop_last();
        let n = gs.len() - 1;
        lemma_groups_ok(head);
        if groups_error(gs) is None {
            assert forall|i: int| 0 <= i < gs.len() implies members_error(
                (#[trigger] gs[i]).1,
            ) is None by {
                if i < n {
                    assert(members_error(head[i].1) is None);
                }
            }
        }
        if forall|i: int| 0 <= i < gs.len() ==> members_error((#[trigger] gs[i]).1) is None {
            assert forall|i: int| 0 <= i < head.len() implies members_error(
                (#[trigger] head[i]).1,
            ) is None by {
                assert(members_error(gs[i].1) is None);
            }
            assert(members_error(gs[n].1) is None);
        }
    }
}

/// A member that a table without a prefix can hold: a reference, or what reads as an IPv6
/// source.
pub open spec fn needs_no_prefix(m: Seq<char>) -> bool {
    m.len() > 0 && m[0] == '@' || encoded_bare(m) is Ok
}

/// Without a prefix a table has no sites, and its groups hold references and IPv6 sources
/// alone.
pub proof fn law_tables_without_a_prefix(sites: Seq<Named>, gs: Seq<Named>)
    ensures
        table_error(None, sites, gs) is None <==> sites.len() == 0 && forall|i: int, j: int|
            0 <= i < gs.len() && 0 <= j < gs[i].1.len() ==> needs_no_prefix(
                #[trigger] gs[i].1[j],
            ),
        sites.len() > 0 ==> table_error(None, sites, gs) == Some(
            "`sites` needs `ula` to encode into"@,
        ),
{
    lemma_groups_ok(gs);
    assert forall|i: int| 0 <= i < gs.len() implies (members_error((#[trigger] gs[i]).1) is None
        <==> forall|j: int| 0 <= j < gs[i].1.len() ==> needs_no_prefix(#[trigger] gs[i].1[j])) by {
        let members = gs[i].1;
        lemma_members_ok(members);
        assert forall|j: int| 0 <= j < members.len() implies needs_no_prefix(#[trigger] members[j])
            == (ref_name(members[j]) is Some || encoded_bare(members[j]) is Ok) by {
            law_references_name_groups(seq![], members[j]);
        }
    }
    if groups_error(gs) is None {
        assert forall|i: int, j: int|
            0 <= i < gs.len() && 0 <= j < gs[i].1.len() implies needs_no_prefix(
            #[trigger] gs[i].1[j],
        ) by {
            assert(members_error(gs[i].1) is None);
        }
    }
}

/// The table has the prefix that was written, its sites live in kind `0b1a` of it, and
/// each is made of what was written for it.
pub proof fn law_table_has_what_is_written(
    t: TableView,
    u: Seq<char>,
    sites: Seq<Named>,
    gs: Seq<Named>,
    i: int,
)
    requires
        table_is(t, Some(u), sites, gs),
        0 <= i < sites.len(),
    ensures
        t.scheme matches Some(s) && {
            &&& prefix_of(u) == Ok::<Seq<u8>, Seq<char>>(s.prefix)
            &&& s.site_net == Some(s.prefix + seq![0x0bu8, 0x1au8])
            &&& s.sites.len() == sites.len()
            &&& exists|k: int|
                0 <= k < s.sites.len() && is_site(
                    #[trigger] s.sites[k],
                    site_parts(sites[i].0, sites[i].1)->Ok_0,
                )
        },
{
    broadcast use vstd::seq_lib::group_to_multiset_ensures;

    let s = t.scheme->Some_0;
    let ps = all_parts(sites)->Ok_0;
    law_sites_are_read_one_by_one(sites);
    assert(site_parts(sites[i].0, sites[i].1) == Ok::<SiteParts, Seq<char>>(ps[i]));
    assert(be2(KIND_SITE) =~= seq![0x0bu8, 0x1au8]);
    let given = choose|given: Seq<Site>|
        {
            &&& #[trigger] given.len() == ps.len()
            &&& given.to_multiset() == s.sites.to_multiset()
            &&& forall|i: int| 0 <= i < ps.len() ==> is_site(#[trigger] given[i], ps[i])
        };
    lemma_same_values(given, s.sites);
    assert(given.to_multiset().len() == given.len());
    assert(s.sites.to_multiset().len() == s.sites.len());
    assert(is_site(given[i], ps[i]));
    assert(given.contains(given[i]));
    let k = choose|k: int| 0 <= k < s.sites.len() && s.sites[k] == given[i];
    assert(is_site(s.sites[k], ps[i]));
}

/// Every member but `!*` admits what it encodes to, and nothing else.
pub proof fn law_members_admit_what_they_encode_to(s: SchemeView, m: Seq<char>, x: u128)
    ensures
        m != seq!['!', '*'] ==> (member_admits(Some(s), m, x) <==> rule_admits(encoded(s, m), x)),
        member_admits(None, m, x) <==> (encoded_bare(m) matches Ok(rule) && rule_admits(rule, x)),
        "!*"@ == seq!['!', '*'],
{
    reveal_strlit("!*");
    assert("!*"@ =~= seq!['!', '*']);
    let ts = seq![encoded(s, m)];
    assert(ts[0] == encoded(s, m));
    if rule_admits(encoded(s, m), x) {
        assert(rule_admits(ts[0], x));
    }
    if let Ok(rule) = encoded_bare(m) {
        let one = seq![rule];
        assert(one[0] == rule);
        if rule_admits(rule, x) {
            assert(rule_admits(one[0], x));
        }
    }
}

/// A list comes to rules exactly where each of its members does: always with a scheme,
/// and without one where each reads as an IPv6 source.
pub proof fn law_lists_expand_member_by_member(
    scheme: Option<SchemeView>,
    ms: Seq<Seq<char>>,
)
    ensures
        encoded_list(scheme, ms) is Ok <==> scheme is Some || forall|i: int|
            0 <= i < ms.len() ==> encoded_bare(#[trigger] ms[i]) is Ok,
    decreases ms.len(),
{
    if ms.len() > 0 {
        let head = ms.drop_last();
        let n = ms.len() - 1;
        law_lists_expand_member_by_member(scheme, head);
        if scheme is None {
            if encoded_list(scheme, ms) is Ok {
                assert forall|i: int| 0 <= i < ms.len() implies encoded_bare(
                    #[trigger] ms[i],
                ) is Ok by {
                    if i < n {
                        assert(encoded_bare(head[i]) is Ok);
                    }
                }
            }
            if forall|i: int| 0 <= i < ms.len() ==> encoded_bare(#[trigger] ms[i]) is Ok {
                assert forall|i: int| 0 <= i < head.len() implies encoded_bare(
                    #[trigger] head[i],
                ) is Ok by {
                    assert(encoded_bare(ms[i]) is Ok);
                }
                assert(encoded_bare(ms[n]) is Ok);
            }
        }
    }
}

proof fn lemma_first_bad(ms: Seq<Seq<char>>, e: Seq<char>) -> (i: int)
    requires
        encoded_list(None, ms) == Err::<Seq<Seq<char>>, Seq<char>>(e),
    ensures
        0 <= i < ms.len(),
        encoded_bare(ms[i]) == Err::<Seq<char>, Seq<char>>(e),
        encoded_list(None, ms.take(i)) is Ok,
    decreases ms.len(),
{
    let head = ms.drop_last();
    let n = ms.len() - 1;
    if encoded_list(None, head) is Err {
        let i = lemma_first_bad(head, e);
        assert(head.take(i) =~= ms.take(i));
        i
    } else {
        assert(ms.take(n) =~= head);
        n
    }
}

/// Without a scheme, the first member of a list that needs one says why it is refused.
pub proof fn law_first_bad_member_says_why(ms: Seq<Seq<char>>, e: Seq<char>)
    requires
        encoded_list(None, ms) == Err::<Seq<Seq<char>>, Seq<char>>(e),
    ensures
        exists|i: int|
            {
                &&& 0 <= i < ms.len()
                &&& #[trigger] encoded_bare(ms[i]) == Err::<Seq<char>, Seq<char>>(e)
                &&& encoded_list(None, ms.take(i)) is Ok
            },
{
    let i = lemma_first_bad(ms, e);
    assert(encoded_bare(ms[i]) == Err::<Seq<char>, Seq<char>>(e));
}

} // verus!
