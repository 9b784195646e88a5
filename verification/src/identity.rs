//! Turning a PROXY protocol header into an IPv6 address that policy can match.
//! ONE ULA holds all three cases, told apart by the kind in group 4 -- the
//! invariant is that everything inside the /48 was synthesized here and
//! everything outside it is a real client address.
//!
//! ```text
//! fd0b:1003:5ec0 : 0b1a : 0000 : 0007 : 0a00:011c   KIND_SITE, an onboarded tenant
//! fd0b:1003:5ec0 : 0001 : 7b53:e75b   : 0a00:011c   KIND_VPCE, a tenant no site claims
//! fd0b:1003:5ec0 : 0004 : 0000:0000   : 0a00:011c   KIND_ADDR, no vpce-id at all
//! └── /48 ULA ──┘  └kind┘  └ body ───┘  client IPv4
//! ```
//!
//! 0xb1a spells "via" the way tailscale's own 4via6 range does, and the site sits
//! in group 6 where tailscale keeps it -- so a site address is the same SHAPE as
//! a 4via6 address. A scheme may also be given a whole 4via6 /64 for its sites
//! (`Scheme::with_via`), and then they are 4via6 addresses.
//!
//! The kind-1 hash is 32 bits rather than 64. It only ever labels STRANGERS --
//! an onboarded tenant has an allocated site -- so the width buys nothing next to
//! carrying the address that says WHICH machine called.

use crate::cidr::{within, CidrSet, Range};
use crate::ip::{read_v4, read_v6, v4, v4_text, v6, v6_text, write_v4, write_v6};
use crate::labels::{self, entry, indexed, listed, Label};
use crate::order::{in_order, lemma_same_values, octets_equal, sorted, Ordered};
use crate::ppv2::{Header, HeaderView};
use crate::prefix::{be, block, number_of, range_of};
use crate::segments::{
    self, at, flat, join, lemma_settled_join, lemma_settled_one, lemma_settled_same, owns, settled,
    Segment,
};
use crate::text::{chars_of, concat, find, find_char, numeral, push_number, quote, quoted, read_uint, uint};
use sha2::{Digest, Sha256};
use vstd::prelude::*;
use vstd::slice::{slice_subrange, slice_to_vec};
use vstd::utf8::encode_utf8;

verus! {

/// An onboarded tenant.
pub const KIND_SITE: u16 = 0x0b1a;

/// The quarantine site: a source two sites claim resolves HERE, not to either
/// claimant -- trust is revoked until the contest is fixed, but the traffic stays
/// nameable ("!0" in a group admits it for examination) instead of silently
/// riding as somebody. Not declarable in `sites`; only contests mint it.
pub const SITE_CONTESTED: u16 = 0;

pub const KIND_VPCE: u16 = 1;

pub const KIND_ADDR: u16 = 4;

/// Another name for `KIND_ADDR`: the client's IPv4 stands in the low 32 bits.
pub const KIND_VIA4: u16 = 4;

/// The /48 ULA prefix: per RFC 4193, `fd` + 40 random bits, generated once.
pub type Prefix = [u8; 6];

/// The /64 that a scheme's sites live in.
pub type ViaPrefix = [u8; 8];

/// One onboarded tenant: the identifiers that resolve to it, and the id they
/// resolve to.
#[derive(Debug)]
pub struct Site {
    pub id: u16,
    /// Exact `vpce-id` matches. AWS-assigned, so a tenant cannot choose one.
    pub vpce: Vec<Vec<u8>>,
    /// Source prefixes, IPv4 held as ::ffff:a.b.c.d so one set covers both
    /// families.
    pub cidrs: CidrSet,
}

impl Ordered for Site {
    open spec fn before(&self, other: &Self) -> bool {
        self.id <= other.id
    }

    proof fn lemma_total(a: &Self, b: &Self) {
    }

    proof fn lemma_transitive(a: &Self, b: &Self, c: &Self) {
    }

    fn is_before(&self, other: &Self) -> (r: bool) {
        self.id <= other.id
    }
}

// --- who owns what ------------------------------------------------------------

/// A site with this id holds the address.
pub open spec fn claims(sites: Seq<Site>, x: u128, id: u16) -> bool {
    exists|i: int|
        0 <= i < sites.len() && (#[trigger] sites[i]).id == id && within(sites[i].cidrs@, x)
}

pub open spec fn names(site: Site, label: Seq<u8>) -> bool {
    exists|k: int| 0 <= k < site.vpce@.len() && (#[trigger] site.vpce@[k])@ == label
}

/// A site with this id lists the label.
pub open spec fn lists(sites: Seq<Site>, label: Seq<u8>, id: u16) -> bool {
    exists|i: int| 0 <= i < sites.len() && (#[trigger] sites[i]).id == id && names(sites[i], label)
}

/// The site that an address belongs to.
pub open spec fn owner(sites: Seq<Site>, x: u128) -> Option<u16> {
    settled(|id: u16| claims(sites, x, id))
}

/// The site that a label belongs to.
pub open spec fn label_owner(sites: Seq<Site>, label: Seq<u8>) -> Option<u16> {
    settled(|id: u16| lists(sites, label, id))
}

/// What a header is encoded against.
pub struct SchemeView {
    pub prefix: Seq<u8>,
    /// The /64 that sites live in. Without one, no site is ever matched.
    pub site_net: Option<Seq<u8>>,
    pub sites: Seq<Site>,
}

impl SchemeView {
    pub open spec fn addr_site(self, x: u128) -> Option<u16> {
        if self.site_net is Some {
            owner(self.sites, x)
        } else {
            None
        }
    }

    pub open spec fn label_site(self, label: Seq<u8>) -> Option<u16> {
        if self.site_net is Some {
            label_owner(self.sites, label)
        } else {
            None
        }
    }

    /// One site holds every address from `start` to `end`.
    pub open spec fn holds_all(self, start: u128, end: u128, id: u16) -> bool {
        forall|x: u128| start <= x <= end ==> #[trigger] self.addr_site(x) == Some(id)
    }

    /// The site owning EVERY address from `start` to `end`. None on mixed or
    /// partial ownership, because no single encoding would match what the wire
    /// does.
    pub open spec fn range_site(self, start: u128, end: u128) -> Option<u16> {
        if exists|id: u16| self.holds_all(start, end, id) {
            Some(choose|id: u16| self.holds_all(start, end, id))
        } else {
            None
        }
    }

    /// Some site has been declared with this id.
    pub open spec fn declares(self, id: u16) -> bool {
        exists|i: int| 0 <= i < self.sites.len() && (#[trigger] self.sites[i]).id == id
    }

    pub open spec fn well_formed(self) -> bool {
        &&& self.prefix.len() == 6
        &&& self.site_net matches Some(net) ==> net.len() == 8
    }
}

/// What a header is encoded against, plus the flat indices site matching runs on.
/// Built ONCE at config load; the per-connection path never touches the per-site
/// structures.
#[derive(Debug)]
pub struct Scheme {
    prefix: Prefix,
    site_net: Option<ViaPrefix>,
    /// Kept for inspection; matching uses the indices below. Empty means nothing
    /// is onboarded, so every header falls to kind 1 or 4.
    sites: Vec<Site>,
    /// vpce bytes -> site id; a label two sites list resolves to site 0.
    vpce_index: Vec<Label>,
    /// All sites' ranges flattened DISJOINT: overlaps split at boundaries, a
    /// segment with one claimant keeps its id and a contested one gets site 0,
    /// adjacent same-id merged.
    segments: Vec<Segment>,
}

impl View for Scheme {
    type V = SchemeView;

    closed spec fn view(&self) -> SchemeView {
        SchemeView {
            prefix: self.prefix@,
            site_net: match self.site_net {
                Some(net) => Some(net@),
                None => None,
            },
            sites: self.sites@,
        }
    }
}

proof fn lemma_owner_split(sites: Seq<Site>, mid: int, x: u128)
    requires
        0 <= mid <= sites.len(),
    ensures
        owner(sites, x) == join(owner(sites.take(mid), x), owner(sites.skip(mid), x)),
{
    let left = sites.take(mid);
    let right = sites.skip(mid);
    let p = |id: u16| claims(left, x, id);
    let q = |id: u16| claims(right, x, id);
    let both = |id: u16| claims(sites, x, id);
    assert forall|id: u16| #[trigger] both(id) <==> p(id) || q(id) by {
        if p(id) {
            let i = choose|i: int|
                0 <= i < left.len() && (#[trigger] left[i]).id == id && within(left[i].cidrs@, x);
            assert(sites[i].id == id);
        }
        if q(id) {
            let i = choose|i: int|
                0 <= i < right.len() && (#[trigger] right[i]).id == id && within(
                    right[i].cidrs@,
                    x,
                );
            assert(sites[mid + i].id == id);
        }
        if both(id) {
            let i = choose|i: int|
                0 <= i < sites.len() && (#[trigger] sites[i]).id == id && within(
                    sites[i].cidrs@,
                    x,
                );
            if i < mid {
                assert(left[i].id == id);
            } else {
                assert(right[i - mid].id == id);
            }
        }
    }
    lemma_settled_join(p, q, both);
}

proof fn lemma_owner_one(sites: Seq<Site>, x: u128)
    requires
        sites.len() == 1,
    ensures
        owner(sites, x) == if within(sites[0].cidrs@, x) {
            Some(sites[0].id)
        } else {
            None
        },
{
    let p = |id: u16| claims(sites, x, id);
    if within(sites[0].cidrs@, x) {
        assert(claims(sites, x, sites[0].id));
        assert(p(sites[0].id));
        lemma_settled_one(p, sites[0].id);
    } else {
        assert(forall|id: u16| !#[trigger] p(id));
    }
}

/// The order in which sites are given does not decide who owns what.
pub proof fn law_owner_ignores_order(a: Seq<Site>, b: Seq<Site>)
    requires
        forall|s: Site| a.contains(s) <==> b.contains(s),
    ensures
        forall|x: u128| owner(a, x) == #[trigger] owner(b, x),
        forall|label: Seq<u8>| label_owner(a, label) == #[trigger] label_owner(b, label),
{
    assert forall|x: u128| owner(a, x) == #[trigger] owner(b, x) by {
        let p = |id: u16| claims(a, x, id);
        let q = |id: u16| claims(b, x, id);
        assert forall|id: u16| #[trigger] p(id) <==> q(id) by {
            if p(id) {
                lemma_claim_moves(a, b, x, id);
            }
            if q(id) {
                lemma_claim_moves(b, a, x, id);
            }
        }
        lemma_settled_same(p, q);
    }
    assert forall|label: Seq<u8>| label_owner(a, label) == #[trigger] label_owner(b, label) by {
        let p = |id: u16| lists(a, label, id);
        let q = |id: u16| lists(b, label, id);
        assert forall|id: u16| #[trigger] p(id) <==> q(id) by {
            if p(id) {
                lemma_listing_moves(a, b, label, id);
            }
            if q(id) {
                lemma_listing_moves(b, a, label, id);
            }
        }
        lemma_settled_same(p, q);
    }
}

proof fn lemma_claim_moves(a: Seq<Site>, b: Seq<Site>, x: u128, id: u16)
    requires
        forall|s: Site| a.contains(s) ==> b.contains(s),
        claims(a, x, id),
    ensures
        claims(b, x, id),
{
    let i = choose|i: int|
        0 <= i < a.len() && (#[trigger] a[i]).id == id && within(a[i].cidrs@, x);
    assert(a.contains(a[i]));
    let j = choose|j: int| 0 <= j < b.len() && b[j] == a[i];
    assert(b[j].id == id);
}

proof fn lemma_listing_moves(a: Seq<Site>, b: Seq<Site>, label: Seq<u8>, id: u16)
    requires
        forall|s: Site| a.contains(s) ==> b.contains(s),
        lists(a, label, id),
    ensures
        lists(b, label, id),
{
    let i = choose|i: int| 0 <= i < a.len() && (#[trigger] a[i]).id == id && names(a[i], label);
    assert(a.contains(a[i]));
    let j = choose|j: int| 0 <= j < b.len() && b[j] == a[i];
    assert(b[j].id == id);
}

/// A site is settled on exactly where it alone claims the address: with a second
/// claimant the address is nobody's, and goes to the quarantine site.
pub proof fn law_contested_addresses_are_quarantined(sites: Seq<Site>, x: u128, a: u16, b: u16)
    requires
        claims(sites, x, a),
        claims(sites, x, b),
        a != b,
    ensures
        owner(sites, x) == Some(SITE_CONTESTED),
{
    let p = |id: u16| claims(sites, x, id);
    assert(p(a) && p(b));
}

/// The same for labels.
pub proof fn law_contested_labels_are_quarantined(
    sites: Seq<Site>,
    label: Seq<u8>,
    a: u16,
    b: u16,
)
    requires
        lists(sites, label, a),
        lists(sites, label, b),
        a != b,
    ensures
        label_owner(sites, label) == Some(SITE_CONTESTED),
{
    let p = |id: u16| lists(sites, label, id);
    assert(p(a) && p(b));
}

/// An address that one id alone claims is that site's.
pub proof fn law_sole_claimant_owns(sites: Seq<Site>, x: u128, id: u16)
    requires
        claims(sites, x, id),
        forall|other: u16| #[trigger] claims(sites, x, other) ==> other == id,
    ensures
        owner(sites, x) == Some(id),
{
    let p = |i: u16| claims(sites, x, i);
    assert(p(id));
    assert(forall|other: u16| #[trigger] p(other) ==> other == id);
    lemma_settled_one(p, id);
}

/// Nobody owns what nobody claims.
pub proof fn law_unclaimed_is_nobodys(sites: Seq<Site>, x: u128)
    requires
        forall|id: u16| !#[trigger] claims(sites, x, id),
    ensures
        owner(sites, x) is None,
{
    let p = |id: u16| claims(sites, x, id);
    assert(forall|id: u16| !#[trigger] p(id));
}

/// The sites' ranges, flattened.
fn flatten(sites: &[Site]) -> (r: Vec<Segment>)
    ensures
        flat(r@),
        forall|x: u128| #[trigger] at(r@, x) == owner(sites@, x),
    decreases sites@.len(),
{
    if sites.len() == 0 {
        let none: Vec<Segment> = Vec::new();
        assert forall|x: u128| #[trigger] at(none@, x) == owner(sites@, x) by {
            law_unclaimed_is_nobodys(sites@, x);
        }
        return none;
    }
    if sites.len() == 1 {
        let one = segments::of_ranges(sites[0].cidrs.ranges(), sites[0].id);
        assert forall|x: u128| #[trigger] at(one@, x) == owner(sites@, x) by {
            lemma_owner_one(sites@, x);
        }
        return one;
    }
    let mid = sites.len() / 2;
    let left = slice_subrange(sites, 0, mid);
    let right = slice_subrange(sites, mid, sites.len());
    assert(left@ =~= sites@.take(mid as int));
    assert(right@ =~= sites@.skip(mid as int));
    let a = flatten(left);
    let b = flatten(right);
    let both = segments::overlay(&a, &b);
    assert forall|x: u128| #[trigger] at(both@, x) == owner(sites@, x) by {
        lemma_owner_split(sites@, mid as int, x);
    }
    both
}

/// Every label that a site lists, with the site's id.
fn label_claims(sites: &[Site]) -> (r: Vec<Label>)
    ensures
        forall|label: Seq<u8>, id: u16|
            #[trigger] listed(r@, label, id) <==> lists(sites@, label, id),
{
    let mut out: Vec<Label> = Vec::new();
    let mut i: usize = 0;
    assert(forall|label: Seq<u8>, id: u16| !#[trigger] listed(out@, label, id));
    while i < sites.len()
        invariant
            i <= sites@.len(),
            forall|label: Seq<u8>, id: u16|
                #[trigger] listed(out@, label, id) <==> lists(sites@.take(i as int), label, id),
        decreases sites@.len() - i,
    {
        let ghost before = out@;
        let mut k: usize = 0;
        while k < sites[i].vpce.len()
            invariant
                i < sites@.len(),
                k <= sites@[i as int].vpce@.len(),
                out@.len() == before.len() + k,
                forall|j: int| 0 <= j < before.len() ==> out@[j] == before[j],
                forall|j: int|
                    0 <= j < k ==> (#[trigger] out@[before.len() + j]).text@
                        == sites@[i as int].vpce@[j]@ && out@[before.len() + j].id
                        == sites@[i as int].id,
            decreases sites@[i as int].vpce@.len() - k,
        {
            let label = Label { text: slice_to_vec(&sites[i].vpce[k]), id: sites[i].id };
            assert(label.text@ =~= sites@[i as int].vpce@[k as int]@);
            out.push(label);
            k += 1;
        }
        proof {
            let site = sites@[i as int];
            let head = sites@.take(i as int);
            let more = sites@.take(i + 1);
            assert forall|label: Seq<u8>, id: u16|
                #[trigger] listed(out@, label, id) <==> lists(more, label, id) by {
                assert(listed(before, label, id) <==> lists(head, label, id));
                if listed(before, label, id) {
                    let j = choose|j: int|
                        0 <= j < before.len() && (#[trigger] before[j]).text@ == label
                            && before[j].id == id;
                    assert(out@[j].text@ == label);
                    let m = choose|m: int|
                        0 <= m < head.len() && (#[trigger] head[m]).id == id && names(
                            head[m],
                            label,
                        );
                    assert(more[m].id == id);
                }
                if listed(out@, label, id) {
                    let j = choose|j: int|
                        0 <= j < out@.len() && (#[trigger] out@[j]).text@ == label && out@[j].id
                            == id;
                    if j < before.len() {
                        assert(before[j].text@ == label);
                    } else {
                        assert(out@[before.len() + (j - before.len())].text@
                            == site.vpce@[j - before.len()]@);
                        assert(names(site, label));
                        assert(more[i as int].id == id);
                    }
                }
                if lists(more, label, id) {
                    let m = choose|m: int|
                        0 <= m < more.len() && (#[trigger] more[m]).id == id && names(
                            more[m],
                            label,
                        );
                    if m < i {
                        assert(head[m].id == id);
                    } else {
                        let k = choose|k: int|
                            0 <= k < site.vpce@.len() && (#[trigger] site.vpce@[k])@ == label;
                        assert(out@[before.len() + k].text@ == label);
                    }
                }
            }
        }
        i += 1;
    }
    assert(sites@.take(i as int) =~= sites@);
    out
}

impl Scheme {
    #[verifier::type_invariant]
    spec fn well_formed(self) -> bool {
        &&& flat(self.segments@)
        &&& indexed(self.vpce_index@)
        &&& in_order(self.sites@)
        &&& forall|x: u128| #[trigger] at(self.segments@, x) == self@.addr_site(x)
        &&& forall|label: Seq<u8>|
            #[trigger] entry(self.vpce_index@, label) == self@.label_site(label)
    }

    /// Sites take kind `KIND_SITE` of the prefix.
    pub fn new(prefix: Prefix, sites: Vec<Site>) -> (r: Scheme)
        ensures
            r@.prefix == prefix@,
            r@.site_net == Some(prefix@ + be2(KIND_SITE)),
            in_order(r@.sites),
            r@.sites.to_multiset() == sites@.to_multiset(),
            forall|x: u128| #[trigger] r@.addr_site(x) == owner(sites@, x),
            forall|label: Seq<u8>| #[trigger] r@.label_site(label) == label_owner(sites@, label),
    {
        let net: ViaPrefix = [
            prefix[0],
            prefix[1],
            prefix[2],
            prefix[3],
            prefix[4],
            prefix[5],
            0x0b,
            0x1a,
        ];
        assert(net@ =~= prefix@ + be2(KIND_SITE));
        Scheme::with_via(prefix, Some(net), sites)
    }

    /// Sites take the /64 given. Without one they are kept, and matched by nothing:
    /// `sites` alone cannot move traffic into a space that was never configured.
    pub fn with_via(prefix: Prefix, site_net: Option<ViaPrefix>, sites: Vec<Site>) -> (r: Scheme)
        ensures
            r@.prefix == prefix@,
            r@.site_net == match site_net {
                Some(net) => Some(net@),
                None => None,
            },
            in_order(r@.sites),
            r@.sites.to_multiset() == sites@.to_multiset(),
            site_net is Some ==> forall|x: u128| #[trigger] r@.addr_site(x) == owner(sites@, x),
            site_net is Some ==> forall|label: Seq<u8>|
                #[trigger] r@.label_site(label) == label_owner(sites@, label),
    {
        let ghost given = sites@;
        let sites = sorted(sites);
        proof {
            lemma_same_values(given, sites@);
            law_owner_ignores_order(given, sites@);
        }
        if site_net.is_none() {
            let none: Vec<Segment> = Vec::new();
            let nothing: Vec<Label> = Vec::new();
            return Scheme { prefix, site_net, sites, vpce_index: nothing, segments: none };
        }
        let segments = flatten(&sites);
        let claims = label_claims(&sites);
        let vpce_index = labels::index(claims);
        proof {
            assert forall|label: Seq<u8>|
                #[trigger] entry(vpce_index@, label) == label_owner(sites@, label) by {
                let p = |id: u16| listed(claims@, label, id);
                let q = |id: u16| lists(sites@, label, id);
                assert forall|id: u16| #[trigger] p(id) <==> q(id) by {
                    assert(listed(claims@, label, id) <==> lists(sites@, label, id));
                }
                lemma_settled_same(p, q);
            }
        }
        Scheme { prefix, site_net, sites, vpce_index, segments }
    }

    /// A scheme's prefix and net are as long as they should be.
    pub proof fn lemma_well_formed(&self)
        ensures
            self@.well_formed(),
    {
    }

    pub fn prefix(&self) -> (r: &Prefix)
        ensures
            r@ == self@.prefix,
    {
        &self.prefix
    }

    /// The sites, in the order of their ids.
    pub fn sites(&self) -> (r: &Vec<Site>)
        ensures
            r@ == self@.sites,
            in_order(r@),
    {
        proof {
            use_type_invariant(self);
        }
        &self.sites
    }

    /// The site whose space this address synthesizes into. One binary search.
    pub fn addr_site(&self, addr: u128) -> (r: Option<u16>)
        ensures
            r == self@.addr_site(addr),
    {
        proof {
            use_type_invariant(self);
        }
        segments::lookup(&self.segments, addr)
    }

    /// The site owning EVERY address from `start` to `end`.
    pub fn range_site(&self, start: u128, end: u128) -> (r: Option<u16>)
        requires
            start <= end,
        ensures
            r == self@.range_site(start, end),
    {
        proof {
            use_type_invariant(self);
        }
        let r = segments::lookup_range(&self.segments, start, end);
        proof {
            assert forall|id: u16|
                owns(self.segments@, start, end, id) <==> #[trigger] self@.holds_all(
                    start,
                    end,
                    id,
                ) by {
                if owns(self.segments@, start, end, id) {
                    assert forall|x: u128| start <= x <= end implies #[trigger] self@.addr_site(x)
                        == Some(id) by {
                        assert(at(self.segments@, x) == Some(id));
                    }
                }
                if self@.holds_all(start, end, id) {
                    assert forall|x: u128| start <= x <= end implies #[trigger] at(
                        self.segments@,
                        x,
                    ) == Some(id) by {
                        assert(self@.addr_site(x) == Some(id));
                    }
                }
            }
            if let Some(id) = r {
                assert(self@.holds_all(start, end, id));
                let other = choose|other: u16| self@.holds_all(start, end, other);
                assert(self@.addr_site(start) == Some(id));
                assert(self@.addr_site(start) == Some(other));
            }
        }
        r
    }

    pub fn label_site(&self, label: &[u8]) -> (r: Option<u16>)
        ensures
            r == self@.label_site(label@),
    {
        proof {
            use_type_invariant(self);
        }
        labels::lookup(&self.vpce_index, label)
    }
}

// --- contests -----------------------------------------------------------------

/// A source that more than one site claims, and the sites that do. What is contested
/// belongs to the quarantine site until it is fixed.
#[derive(Debug, PartialEq, Eq)]
pub enum Contest {
    Label { label: Vec<u8>, sites: Vec<u16> },
    Range { start: u128, end: u128, sites: Vec<u16> },
}

pub open spec fn ids_ascend(ids: Seq<u16>) -> bool {
    forall|i: int, j: int|
        #![trigger ids[i], ids[j]]
        0 <= i < j < ids.len() ==> ids[i] < ids[j]
}

/// A contest that is there, with all who take part in it: each of them lists the
/// label, or claims every address of the stretch.
pub open spec fn is_contest(s: SchemeView, c: Contest) -> bool {
    match c {
        Contest::Label { label, sites } => {
            &&& s.label_site(label@) == Some(SITE_CONTESTED)
            &&& sites@.len() >= 2
            &&& ids_ascend(sites@)
            &&& forall|id: u16| #[trigger] sites@.contains(id) <==> lists(s.sites, label@, id)
        },
        Contest::Range { start, end, sites } => {
            &&& start <= end
            &&& s.holds_all(start, end, SITE_CONTESTED)
            &&& sites@.len() >= 2
            &&& ids_ascend(sites@)
            &&& claimed_by(s.sites, start, end, sites@)
        },
    }
}

/// These sites, and no others, claim every address from `start` to `end`.
pub open spec fn claimed_by(sites: Seq<Site>, start: u128, end: u128, ids: Seq<u16>) -> bool {
    forall|x: u128, id: u16|
        #![trigger claims(sites, x, id)]
        start <= x <= end ==> (claims(sites, x, id) <==> ids.contains(id))
}

/// Two contests are about different labels, or the one is about earlier addresses
/// than the other; and where these touch, others take part.
pub open spec fn apart(a: Contest, b: Contest) -> bool {
    match (a, b) {
        (Contest::Label { label: p, sites: _ }, Contest::Label { label: q, sites: _ }) => p@ != q@,
        (
            Contest::Range { start: _, end, sites: xs },
            Contest::Range { start, end: _, sites: ys },
        ) => end < start && (end + 1 == start ==> xs@ != ys@),
        _ => true,
    }
}

/// Each contest is there once.
pub open spec fn each_apart(cs: Seq<Contest>) -> bool {
    forall|i: int, j: int|
        #![trigger cs[i], cs[j]]
        0 <= i < j < cs.len() ==> apart(cs[i], cs[j])
}

pub open spec fn about_label(c: Contest, text: Seq<u8>) -> bool {
    c matches Contest::Label { label, sites } && label@ == text
}

pub open spec fn about_address(c: Contest, x: u128) -> bool {
    c matches Contest::Range { start, end, sites } && start <= x <= end
}

/// Some contest is about the label.
pub open spec fn label_reported(cs: Seq<Contest>, label: Seq<u8>) -> bool {
    exists|i: int| 0 <= i < cs.len() && about_label(#[trigger] cs[i], label)
}

/// Some contest is about the address.
pub open spec fn address_reported(cs: Seq<Contest>, x: u128) -> bool {
    exists|i: int| 0 <= i < cs.len() && about_address(#[trigger] cs[i], x)
}

fn names_label(site: &Site, label: &[u8]) -> (r: bool)
    ensures
        r == names(*site, label@),
{
    let mut k: usize = 0;
    while k < site.vpce.len()
        invariant
            k <= site.vpce@.len(),
            forall|j: int| 0 <= j < k ==> (#[trigger] site.vpce@[j])@ != label@,
        decreases site.vpce@.len() - k,
    {
        if octets_equal(&site.vpce[k], label) {
            assert(site.vpce@[k as int]@ == label@);
            return true;
        }
        k += 1;
    }
    false
}

/// The site claims all addresses from `x` to `end`, or none of them.
spec fn unchanged(site: Site, x: u128, end: u128) -> bool {
    forall|y: u128|
        x <= y <= end ==> (#[trigger] within(site.cidrs@, y) <==> within(site.cidrs@, x))
}

spec fn range_has(range: Range, x: u128) -> bool {
    range.start <= x <= range.end
}

/// How far from `x`, up to `last`, the site claims all addresses or none.
fn steady(site: &Site, x: u128, last: u128) -> (end: u128)
    requires
        x <= last,
    ensures
        x <= end <= last,
        unchanged(*site, x, end),
{
    let ranges = site.cidrs.ranges();
    let mut end = last;
    let mut k: usize = 0;
    while k < ranges.len()
        invariant
            k <= ranges@.len(),
            x <= end <= last,
            ranges@ == site.cidrs@,
            forall|j: int, y: u128|
                #![trigger range_has(ranges@[j], y)]
                0 <= j < k && x <= y <= end ==> (range_has(ranges@[j], y) <==> range_has(ranges@[j], x)),
        decreases ranges@.len() - k,
    {
        let range = ranges[k];
        if x < range.start {
            if range.start <= end {
                end = range.start - 1;
            }
        } else if x <= range.end && range.end < end {
            end = range.end;
        }
        k += 1;
    }
    proof {
        assert forall|y: u128| x <= y <= end implies (#[trigger] within(site.cidrs@, y) <==> within(
            site.cidrs@,
            x,
        )) by {
            if within(site.cidrs@, y) {
                let j = choose|j: int|
                    0 <= j < ranges@.len() && (#[trigger] ranges@[j]).start <= y <= ranges@[j].end;
                assert(range_has(ranges@[j], y) <==> range_has(ranges@[j], x));
            }
            if within(site.cidrs@, x) {
                let j = choose|j: int|
                    0 <= j < ranges@.len() && (#[trigger] ranges@[j]).start <= x <= ranges@[j].end;
                assert(range_has(ranges@[j], y) <==> range_has(ranges@[j], x));
            }
        }
    }
    end
}

fn same_ids(a: &[u16], b: &[u16]) -> (r: bool)
    ensures
        r == (a@ == b@),
{
    if a.len() != b.len() {
        return false;
    }
    let mut i: usize = 0;
    while i < a.len()
        invariant
            i <= a@.len(),
            a@.len() == b@.len(),
            forall|j: int| 0 <= j < i ==> a@[j] == b@[j],
        decreases a@.len() - i,
    {
        if a[i] != b[i] {
            return false;
        }
        i += 1;
    }
    assert(a@ =~= b@);
    true
}

/// The ids, each once, of the sites that a flag is set for. The sites come in the
/// order of their ids.
fn flagged(sites: &[Site], flags: &[bool]) -> (r: Vec<u16>)
    requires
        in_order(sites@),
        flags@.len() == sites@.len(),
    ensures
        ids_ascend(r@),
        forall|id: u16|
            #[trigger] r@.contains(id) <==> exists|i: int|
                0 <= i < sites@.len() && flags@[i] && (#[trigger] sites@[i]).id == id,
{
    let mut out: Vec<u16> = Vec::new();
    let mut i: usize = 0;
    while i < sites.len()
        invariant
            i <= sites@.len(),
            in_order(sites@),
            flags@.len() == sites@.len(),
            ids_ascend(out@),
            out@.len() > 0 ==> i > 0 && out@.last() <= sites@[i - 1].id,
            forall|k: int|
                0 <= k < out@.len() ==> exists|j: int|
                    0 <= j < i && flags@[j] && (#[trigger] sites@[j]).id == #[trigger] out@[k],
            forall|j: int|
                0 <= j < i && flags@[j] ==> out@.contains((#[trigger] sites@[j]).id),
        decreases sites@.len() - i,
    {
        let ghost before = out@;
        let n = out.len();
        proof {
            if i > 0 {
                assert(sites@[i - 1].before(&sites@[i as int]));
            }
        }
        if flags[i] && (n == 0 || out[n - 1] != sites[i].id) {
            out.push(sites[i].id);
            proof {
                assert forall|k: int| 0 <= k < out@.len() implies exists|j: int|
                    0 <= j < i + 1 && flags@[j] && (#[trigger] sites@[j]).id
                        == #[trigger] out@[k] by {
                    if k < before.len() {
                        let j = choose|j: int|
                            0 <= j < i && flags@[j] && (#[trigger] sites@[j]).id == before[k];
                        assert(sites@[j].id == out@[k]);
                    } else {
                        assert(sites@[i as int].id == out@[k]);
                    }
                }
                assert forall|a: int, b: int|
                    #![trigger out@[a], out@[b]]
                    0 <= a < b < out@.len() implies out@[a] < out@[b] by {
                    if b == n {
                        assert(a == n - 1 || before[a] < before[n - 1]);
                    } else {
                        assert(before[a] < before[b]);
                    }
                }
                assert forall|j: int| 0 <= j < i + 1 && flags@[j] implies out@.contains(
                    (#[trigger] sites@[j]).id,
                ) by {
                    if j < i {
                        let k = choose|k: int| 0 <= k < before.len() && before[k] == sites@[j].id;
                        assert(out@[k] == sites@[j].id);
                    } else {
                        assert(out@[n as int] == sites@[j].id);
                    }
                }
            }
        } else if flags[i] {
            assert(out@[n - 1] == sites@[i as int].id);
        }
        i += 1;
    }
    proof {
        assert forall|id: u16| #[trigger] out@.contains(id) <==> exists|i: int|
            0 <= i < sites@.len() && flags@[i] && (#[trigger] sites@[i]).id == id by {
            if out@.contains(id) {
                let k = choose|k: int| 0 <= k < out@.len() && out@[k] == id;
                assert(out@[k] == id);
            }
        }
    }
    out
}

impl Scheme {
    /// The sites that list a label.
    fn listing(&self, label: &[u8]) -> (r: Vec<u16>)
        ensures
            ids_ascend(r@),
            forall|id: u16| #[trigger] r@.contains(id) <==> lists(self@.sites, label@, id),
    {
        proof {
            use_type_invariant(self);
        }
        let mut flags: Vec<bool> = Vec::new();
        while flags.len() < self.sites.len()
            invariant
                flags@.len() <= self.sites@.len(),
                forall|j: int|
                    0 <= j < flags@.len() ==> #[trigger] flags@[j] == names(
                        self.sites@[j],
                        label@,
                    ),
            decreases self.sites@.len() - flags@.len(),
        {
            flags.push(names_label(&self.sites[flags.len()], label));
        }
        let r = flagged(&self.sites, &flags);
        proof {
            assert forall|id: u16| #[trigger] r@.contains(id) <==> lists(
                self@.sites,
                label@,
                id,
            ) by {
                if lists(self@.sites, label@, id) {
                    let i = choose|i: int|
                        0 <= i < self.sites@.len() && (#[trigger] self.sites@[i]).id == id
                            && names(self.sites@[i], label@);
                    assert(flags@[i]);
                }
                if r@.contains(id) {
                    let i = choose|i: int|
                        0 <= i < self.sites@.len() && flags@[i] && (#[trigger] self.sites@[i]).id
                            == id;
                    assert(names(self.sites@[i], label@));
                }
            }
        }
        r
    }

    /// The sites that claim an address.
    fn claiming(&self, x: u128) -> (r: Vec<u16>)
        ensures
            ids_ascend(r@),
            claimed_by(self@.sites, x, x, r@),
    {
        proof {
            use_type_invariant(self);
        }
        let mut flags: Vec<bool> = Vec::new();
        while flags.len() < self.sites.len()
            invariant
                flags@.len() <= self.sites@.len(),
                forall|j: int|
                    0 <= j < flags@.len() ==> #[trigger] flags@[j] == within(
                        self.sites@[j].cidrs@,
                        x,
                    ),
            decreases self.sites@.len() - flags@.len(),
        {
            flags.push(self.sites[flags.len()].cidrs.contains(x));
        }
        let r = flagged(&self.sites, &flags);
        proof {
            let sites = self.sites@;
            assert forall|y: u128, id: u16| #![trigger claims(sites, y, id)] y == x implies (claims(
                sites,
                y,
                id,
            ) <==> r@.contains(id)) by {
                if claims(sites, x, id) {
                    let i = choose|i: int|
                        0 <= i < sites.len() && (#[trigger] sites[i]).id == id && within(
                            sites[i].cidrs@,
                            x,
                        );
                    assert(flags@[i]);
                }
                if r@.contains(id) {
                    let i = choose|i: int|
                        0 <= i < sites.len() && flags@[i] && (#[trigger] sites[i]).id == id;
                    assert(within(sites[i].cidrs@, x));
                }
            }
        }
        r
    }

    /// How far from `x`, up to `last`, the same sites claim every address.
    fn steady(&self, x: u128, last: u128) -> (end: u128)
        requires
            x <= last,
        ensures
            x <= end <= last,
            forall|y: u128, id: u16|
                #![trigger claims(self@.sites, y, id)]
                x <= y <= end ==> (claims(self@.sites, y, id) <==> claims(self@.sites, x, id)),
    {
        let mut end = last;
        let mut k: usize = 0;
        while k < self.sites.len()
            invariant
                k <= self.sites@.len(),
                x <= end <= last,
                forall|j: int| 0 <= j < k ==> unchanged(#[trigger] self.sites@[j], x, end),
            decreases self.sites@.len() - k,
        {
            let ghost before = end;
            end = steady(&self.sites[k], x, end);
            assert forall|j: int| 0 <= j < k + 1 implies unchanged(
                #[trigger] self.sites@[j],
                x,
                end,
            ) by {
                if j < k {
                    assert(unchanged(self.sites@[j], x, before));
                }
            }
            k += 1;
        }
        proof {
            let sites = self.sites@;
            assert forall|y: u128, id: u16| #![trigger claims(sites, y, id)] x <= y
                <= end implies (claims(sites, y, id) <==> claims(sites, x, id)) by {
                if claims(sites, y, id) {
                    let i = choose|i: int|
                        0 <= i < sites.len() && (#[trigger] sites[i]).id == id && within(
                            sites[i].cidrs@,
                            y,
                        );
                    assert(unchanged(sites[i], x, end));
                    assert(within(sites[i].cidrs@, x));
                }
                if claims(sites, x, id) {
                    let i = choose|i: int|
                        0 <= i < sites.len() && (#[trigger] sites[i]).id == id && within(
                            sites[i].cidrs@,
                            x,
                        );
                    assert(unchanged(sites[i], x, end));
                    assert(within(sites[i].cidrs@, y));
                }
            }
        }
        end
    }

    /// The contests over labels.
    fn label_contests(&self) -> (r: Vec<Contest>)
        ensures
            forall|i: int|
                0 <= i < r@.len() ==> is_contest(self@, #[trigger] r@[i]) && r@[i] is Label,
            each_apart(r@),
            self@.site_net is Some ==> forall|label: Seq<u8>, a: u16, b: u16|
                #![trigger lists(self@.sites, label, a), lists(self@.sites, label, b)]
                a != b && lists(self@.sites, label, a) && lists(self@.sites, label, b)
                    ==> label_reported(r@, label),
    {
        proof {
            use_type_invariant(self);
        }
        let ghost v = self@;
        let mut out: Vec<Contest> = Vec::new();
        let mut i: usize = 0;
        while i < self.vpce_index.len()
            invariant
                i <= self.vpce_index@.len(),
                v == self@,
                indexed(self.vpce_index@),
                forall|label: Seq<u8>|
                    #[trigger] entry(self.vpce_index@, label) == v.label_site(label),
                forall|j: int|
                    0 <= j < out@.len() ==> is_contest(v, #[trigger] out@[j]) && out@[j] is Label,
                forall|j: int|
                    0 <= j < out@.len() ==> exists|k: int|
                        0 <= k < i && about_label(
                            #[trigger] out@[j],
                            (#[trigger] self.vpce_index@[k]).text@,
                        ),
                each_apart(out@),
                forall|j: int, a: u16, b: u16|
                    #![trigger lists(v.sites, self.vpce_index@[j].text@, a), lists(v.sites, self.vpce_index@[j].text@, b)]
                    0 <= j < i && a != b && lists(v.sites, self.vpce_index@[j].text@, a) && lists(
                        v.sites,
                        self.vpce_index@[j].text@,
                        b,
                    ) && v.site_net is Some ==> label_reported(out@, self.vpce_index@[j].text@),
            decreases self.vpce_index@.len() - i,
        {
            let ghost before = out@;
            let ghost text = self.vpce_index@[i as int].text@;
            let mut reported = false;
            if self.vpce_index[i].id == SITE_CONTESTED {
                let sites = self.listing(&self.vpce_index[i].text);
                if sites.len() >= 2 {
                    let label = slice_to_vec(&self.vpce_index[i].text);
                    assert(label@ =~= text);
                    proof {
                        labels::lemma_entry(self.vpce_index@, i as int);
                        assert(entry(self.vpce_index@, text) == v.label_site(text));
                    }
                    let contest = Contest::Label { label, sites };
                    assert(is_contest(v, contest));
                    proof {
                        assert forall|j: int| 0 <= j < before.len() implies apart(
                            #[trigger] before[j],
                            contest,
                        ) by {
                            let k = choose|k: int|
                                0 <= k < i && about_label(
                                    before[j],
                                    (#[trigger] self.vpce_index@[k]).text@,
                                );
                            assert(self.vpce_index@[k].text@ != text);
                        }
                    }
                    out.push(contest);
                    reported = true;
                    assert(about_label(out@[out@.len() - 1], text));
                } else {
                    proof {
                        assert forall|a: u16, b: u16|
                            #![trigger lists(v.sites, text, a), lists(v.sites, text, b)]
                            lists(v.sites, text, a) && lists(v.sites, text, b) implies a == b by {
                            lemma_few(sites@, a, b);
                        }
                    }
                }
            } else {
                proof {
                    labels::lemma_entry(self.vpce_index@, i as int);
                    assert forall|a: u16, b: u16|
                        #![trigger lists(v.sites, text, a), lists(v.sites, text, b)]
                        lists(v.sites, text, a) && lists(v.sites, text, b)
                            && v.site_net is Some implies a == b by {
                        if a != b {
                            law_contested_labels_are_quarantined(v.sites, text, a, b);
                            assert(entry(self.vpce_index@, text) == v.label_site(text));
                        }
                    }
                }
            }
            proof {
                assert forall|label: Seq<u8>| label_reported(before, label) implies
                    #[trigger] label_reported(out@, label) by {
                    let k = choose|k: int| 0 <= k < before.len() && about_label(
                        #[trigger] before[k],
                        label,
                    );
                    assert(out@[k] == before[k]);
                }
                assert(reported ==> label_reported(out@, text));
                assert forall|j: int| 0 <= j < out@.len() implies exists|k: int|
                    0 <= k < i + 1 && about_label(
                        #[trigger] out@[j],
                        (#[trigger] self.vpce_index@[k]).text@,
                    ) by {
                    if j < before.len() {
                        let k = choose|k: int|
                            0 <= k < i && about_label(
                                before[j],
                                (#[trigger] self.vpce_index@[k]).text@,
                            );
                        assert(about_label(out@[j], self.vpce_index@[k].text@));
                    } else {
                        assert(about_label(out@[j], self.vpce_index@[i as int].text@));
                    }
                }
            }
            i += 1;
        }
        proof {
            assert forall|label: Seq<u8>, a: u16, b: u16|
                #![trigger lists(v.sites, label, a), lists(v.sites, label, b)]
                v.site_net is Some && a != b && lists(v.sites, label, a) && lists(
                    v.sites,
                    label,
                    b,
                ) implies label_reported(out@, label) by {
                law_contested_labels_are_quarantined(v.sites, label, a, b);
                assert(entry(self.vpce_index@, label) == v.label_site(label));
                let k = choose|k: int|
                    0 <= k < self.vpce_index@.len() && (#[trigger] self.vpce_index@[k]).text@
                        == label;
                assert(lists(v.sites, self.vpce_index@[k].text@, a));
            }
        }
        out
    }

    /// The contests over a stretch of quarantined addresses, cut where the claimants
    /// change.
    fn stretch_contests(&self, start: u128, end: u128) -> (r: Vec<Contest>)
        requires
            start <= end,
            self@.holds_all(start, end, SITE_CONTESTED),
        ensures
            forall|i: int| 0 <= i < r@.len() ==> is_contest(self@, #[trigger] r@[i]) && lies_in(
                r@[i],
                start,
                end,
            ),
            each_apart(r@),
            forall|x: u128, a: u16, b: u16|
                #![trigger claims(self@.sites, x, a), claims(self@.sites, x, b)]
                start <= x <= end && a != b && claims(self@.sites, x, a) && claims(
                    self@.sites,
                    x,
                    b,
                ) ==> address_reported(r@, x),
    {
        let ghost v = self@;
        let mut out: Vec<Contest> = Vec::new();
        let mut from = start;
        let mut ids = self.claiming(start);
        let mut last = self.steady(start, end);
        assert(claimed_by(v.sites, from, last, ids@)) by {
            lemma_carried(v.sites, start, last, ids@);
        }
        while last < end
            invariant
                v == self@,
                v.holds_all(start, end, SITE_CONTESTED),
                start <= from <= last <= end,
                ids_ascend(ids@),
                claimed_by(v.sites, from, last, ids@),
                forall|j: int|
                    0 <= j < out@.len() ==> is_contest(v, #[trigger] out@[j]) && lies_in(
                        out@[j],
                        start,
                        end,
                    ) && ends_before(out@[j], from, ids@),
                each_apart(out@),
                forall|x: u128, a: u16, b: u16|
                    #![trigger claims(v.sites, x, a), claims(v.sites, x, b)]
                    start <= x < from && a != b && claims(v.sites, x, a) && claims(v.sites, x, b)
                        ==> address_reported(out@, x),
            decreases end - last,
        {
            let next = last + 1;
            let others = self.claiming(next);
            let until = self.steady(next, end);
            proof {
                lemma_carried(v.sites, next, until, others@);
            }
            if !same_ids(&ids, &others) {
                let ghost before = out@;
                let ghost done = ids@;
                if ids.len() >= 2 {
                    let mut sites: Vec<u16> = Vec::new();
                    std::mem::swap(&mut sites, &mut ids);
                    let contest = Contest::Range { start: from, end: last, sites };
                    proof {
                        assert(v.holds_all(from, last, SITE_CONTESTED));
                        assert(is_contest(v, contest));
                        lemma_all_apart(before, contest, from, done);
                    }
                    out.push(contest);
                }
                proof {
                    lemma_reported_on(v.sites, before, out@, start, from, last, done);
                    assert forall|j: int| 0 <= j < out@.len() implies ends_before(
                        #[trigger] out@[j],
                        next,
                        others@,
                    ) by {
                        if j < before.len() {
                            assert(ends_before(before[j], from, done));
                        }
                    }
                }
                from = next;
                ids = others;
            }
            last = until;
        }
        let ghost before = out@;
        let ghost done = ids@;
        if ids.len() >= 2 {
            let contest = Contest::Range { start: from, end: last, sites: ids };
            proof {
                assert(v.holds_all(from, last, SITE_CONTESTED));
                assert(is_contest(v, contest));
                lemma_all_apart(before, contest, from, done);
            }
            out.push(contest);
        }
        proof {
            lemma_reported_on(v.sites, before, out@, start, from, last, done);
        }
        out
    }

    /// The contests over addresses.
    fn range_contests(&self) -> (r: Vec<Contest>)
        ensures
            forall|i: int|
                0 <= i < r@.len() ==> is_contest(self@, #[trigger] r@[i]) && r@[i] is Range,
            each_apart(r@),
            self@.site_net is Some ==> forall|x: u128, a: u16, b: u16|
                #![trigger claims(self@.sites, x, a), claims(self@.sites, x, b)]
                a != b && claims(self@.sites, x, a) && claims(self@.sites, x, b)
                    ==> address_reported(r@, x),
    {
        proof {
            use_type_invariant(self);
        }
        let ghost v = self@;
        let mut out: Vec<Contest> = Vec::new();
        let mut i: usize = 0;
        while i < self.segments.len()
            invariant
                i <= self.segments@.len(),
                v == self@,
                flat(self.segments@),
                forall|x: u128| #[trigger] at(self.segments@, x) == v.addr_site(x),
                forall|j: int|
                    0 <= j < out@.len() ==> is_contest(v, #[trigger] out@[j]) && out@[j] is Range,
                forall|j: int|
                    0 <= j < out@.len() ==> exists|k: int|
                        0 <= k < i && (#[trigger] self.segments@[k]).id == SITE_CONTESTED
                            && lies_in(
                            #[trigger] out@[j],
                            self.segments@[k].start,
                            self.segments@[k].end,
                        ),
                each_apart(out@),
                forall|j: int, x: u128, a: u16, b: u16|
                    #![trigger self.segments@[j].has(x), claims(v.sites, x, a), claims(v.sites, x, b)]
                    0 <= j < i && self.segments@[j].has(x) && a != b && claims(v.sites, x, a)
                        && claims(v.sites, x, b) && v.site_net is Some ==> address_reported(
                        out@,
                        x,
                    ),
            decreases self.segments@.len() - i,
        {
            let ghost before = out@;
            let ghost mut added: Seq<Contest> = seq![];
            let seg = self.segments[i];
            assert(self.segments@[i as int].start <= self.segments@[i as int].end);
            if seg.id == SITE_CONTESTED {
                proof {
                    assert forall|x: u128| seg.start <= x <= seg.end implies
                        #[trigger] v.addr_site(x) == Some(SITE_CONTESTED) by {
                        assert(self.segments@[i as int].has(x));
                        segments::lemma_at(self.segments@, i as int, x);
                        assert(at(self.segments@, x) == v.addr_site(x));
                    }
                    assert(v.holds_all(seg.start, seg.end, SITE_CONTESTED));
                }
                let mut more = self.stretch_contests(seg.start, seg.end);
                proof {
                    added = more@;
                    assert forall|j: int, k: int| 0 <= j < before.len() && 0 <= k
                        < added.len() implies apart(#[trigger] before[j], #[trigger] added[k]) by {
                        let l = choose|l: int|
                            0 <= l < i && (#[trigger] self.segments@[l]).id == SITE_CONTESTED
                                && lies_in(
                                before[j],
                                self.segments@[l].start,
                                self.segments@[l].end,
                            );
                        lemma_contested_are_apart(self.segments@, l, i as int);
                        assert(lies_in(added[k], seg.start, seg.end));
                    }
                }
                out.append(&mut more);
            } else {
                proof {
                    assert forall|x: u128, a: u16, b: u16|
                        #![trigger claims(v.sites, x, a), claims(v.sites, x, b)]
                        seg.has(x) && claims(v.sites, x, a) && claims(v.sites, x, b)
                            && v.site_net is Some implies a == b by {
                        if a != b {
                            law_contested_addresses_are_quarantined(v.sites, x, a, b);
                            segments::lemma_at(self.segments@, i as int, x);
                            assert(at(self.segments@, x) == v.addr_site(x));
                        }
                    }
                }
            }
            proof {
                assert(out@ =~= before + added);
                assert forall|j: int| 0 <= j < out@.len() implies is_contest(v, #[trigger] out@[j])
                    && out@[j] is Range && exists|k: int|
                    0 <= k < i + 1 && (#[trigger] self.segments@[k]).id == SITE_CONTESTED
                        && lies_in(out@[j], self.segments@[k].start, self.segments@[k].end) by {
                    if j < before.len() {
                        assert(out@[j] == before[j]);
                        let k = choose|k: int|
                            0 <= k < i && (#[trigger] self.segments@[k]).id == SITE_CONTESTED
                                && lies_in(
                                before[j],
                                self.segments@[k].start,
                                self.segments@[k].end,
                            );
                        assert(self.segments@[k].id == SITE_CONTESTED);
                    } else {
                        assert(out@[j] == added[j - before.len()]);
                        assert(self.segments@[i as int].id == SITE_CONTESTED);
                    }
                }
                assert forall|j: int, k: int|
                    #![trigger out@[j], out@[k]]
                    0 <= j < k < out@.len() implies apart(out@[j], out@[k]) by {
                    if k < before.len() {
                        assert(apart(before[j], before[k]));
                    } else if j >= before.len() {
                        assert(apart(added[j - before.len()], added[k - before.len()]));
                    } else {
                        assert(apart(before[j], added[k - before.len()]));
                    }
                }
                assert forall|x: u128| address_reported(before, x) implies
                    #[trigger] address_reported(out@, x) by {
                    let k = choose|k: int| 0 <= k < before.len() && about_address(
                        #[trigger] before[k],
                        x,
                    );
                    assert(out@[k] == before[k]);
                }
                assert forall|x: u128| address_reported(added, x) implies
                    #[trigger] address_reported(out@, x) by {
                    let k = choose|k: int| 0 <= k < added.len() && about_address(
                        #[trigger] added[k],
                        x,
                    );
                    assert(out@[before.len() + k] == added[k]);
                }
                assert forall|j: int, x: u128, a: u16, b: u16|
                    #![trigger self.segments@[j].has(x), claims(v.sites, x, a), claims(v.sites, x, b)]
                    0 <= j < i + 1 && self.segments@[j].has(x) && a != b && claims(v.sites, x, a)
                        && claims(v.sites, x, b) && v.site_net is Some implies address_reported(
                    out@,
                    x,
                ) by {
                    if j < i {
                        assert(address_reported(before, x));
                    } else {
                        assert(seg.has(x));
                        assert(address_reported(added, x));
                    }
                }
            }
            i += 1;
        }
        proof {
            assert forall|x: u128, a: u16, b: u16|
                #![trigger claims(v.sites, x, a), claims(v.sites, x, b)]
                v.site_net is Some && a != b && claims(v.sites, x, a) && claims(
                    v.sites,
                    x,
                    b,
                ) implies address_reported(out@, x) by {
                law_contested_addresses_are_quarantined(v.sites, x, a, b);
                assert(at(self.segments@, x) == v.addr_site(x));
                let k = choose|k: int|
                    0 <= k < self.segments@.len() && (#[trigger] self.segments@[k]).has(x);
                assert(self.segments@[k].has(x));
            }
        }
        out
    }

    /// Every contest, each once: one per label that two sites list, and one per
    /// stretch of addresses that the same sites contest.
    pub fn contests(&self) -> (r: Vec<Contest>)
        ensures
            forall|i: int| 0 <= i < r@.len() ==> is_contest(self@, #[trigger] r@[i]),
            each_apart(r@),
            self@.site_net is Some ==> forall|label: Seq<u8>, a: u16, b: u16|
                #![trigger lists(self@.sites, label, a), lists(self@.sites, label, b)]
                a != b && lists(self@.sites, label, a) && lists(self@.sites, label, b)
                    ==> label_reported(r@, label),
            self@.site_net is Some ==> forall|x: u128, a: u16, b: u16|
                #![trigger claims(self@.sites, x, a), claims(self@.sites, x, b)]
                a != b && claims(self@.sites, x, a) && claims(self@.sites, x, b)
                    ==> address_reported(r@, x),
    {
        let mut out = self.label_contests();
        let ghost first = out@;
        let mut more = self.range_contests();
        let ghost second = more@;
        out.append(&mut more);
        proof {
            assert forall|i: int| 0 <= i < out@.len() implies is_contest(
                self@,
                #[trigger] out@[i],
            ) by {
                if i < first.len() {
                    assert(is_contest(self@, first[i]));
                } else {
                    assert(is_contest(self@, second[i - first.len()]));
                }
            }
            assert forall|i: int, j: int|
                #![trigger out@[i], out@[j]]
                0 <= i < j < out@.len() implies apart(out@[i], out@[j]) by {
                if j < first.len() {
                    assert(apart(first[i], first[j]));
                } else if i >= first.len() {
                    assert(apart(second[i - first.len()], second[j - first.len()]));
                } else {
                    assert(first[i] is Label && second[j - first.len()] is Range);
                }
            }
            assert forall|label: Seq<u8>| label_reported(first, label) implies
                #[trigger] label_reported(out@, label) by {
                let k = choose|k: int| 0 <= k < first.len() && about_label(
                    #[trigger] first[k],
                    label,
                );
                assert(out@[k] == first[k]);
            }
            assert forall|x: u128| address_reported(second, x) implies
                #[trigger] address_reported(out@, x) by {
                let k = choose|k: int| 0 <= k < second.len() && about_address(
                    #[trigger] second[k],
                    x,
                );
                assert(out@[first.len() + k] == second[k]);
            }
        }
        out
    }
}

/// The contest is over addresses from `start` to `end`.
spec fn lies_in(c: Contest, from: u128, to: u128) -> bool {
    c matches Contest::Range { start, end, sites } && from <= start && end <= to
}

/// The contest is over addresses before `next`, and where it touches that, others
/// than these take part.
spec fn ends_before(c: Contest, next: u128, ids: Seq<u16>) -> bool {
    c matches Contest::Range { start, end, sites } && end < next && (end + 1 == next ==> sites@
        != ids)
}

/// Who claims one address claims as far as nothing changes.
proof fn lemma_carried(sites: Seq<Site>, x: u128, last: u128, ids: Seq<u16>)
    requires
        claimed_by(sites, x, x, ids),
        forall|y: u128, id: u16|
            #![trigger claims(sites, y, id)]
            x <= y <= last ==> (claims(sites, y, id) <==> claims(sites, x, id)),
    ensures
        claimed_by(sites, x, last, ids),
{
    assert forall|y: u128, id: u16| #![trigger claims(sites, y, id)] x <= y <= last implies (
    claims(sites, y, id) <==> ids.contains(id)) by {
        assert(claims(sites, x, id) <==> ids.contains(id));
    }
}

/// A contest that starts where all others have ended is apart from them.
proof fn lemma_all_apart(cs: Seq<Contest>, c: Contest, from: u128, ids: Seq<u16>)
    requires
        each_apart(cs),
        forall|j: int| 0 <= j < cs.len() ==> ends_before(#[trigger] cs[j], from, ids),
        c matches Contest::Range { start, end, sites } && start == from && sites@ == ids,
    ensures
        each_apart(cs.push(c)),
{
    let more = cs.push(c);
    assert forall|i: int, j: int|
        #![trigger more[i], more[j]]
        0 <= i < j < more.len() implies apart(more[i], more[j]) by {
        if j < cs.len() {
            assert(apart(cs[i], cs[j]));
        } else {
            assert(ends_before(cs[i], from, ids));
        }
    }
}

/// With the stretch that `ids` claim reported where there are two of them, all is
/// reported up to its end.
proof fn lemma_reported_on(
    sites: Seq<Site>,
    before: Seq<Contest>,
    after: Seq<Contest>,
    start: u128,
    from: u128,
    last: u128,
    ids: Seq<u16>,
)
    requires
        claimed_by(sites, from, last, ids),
        before.len() <= after.len(),
        forall|j: int| 0 <= j < before.len() ==> after[j] == before[j],
        ids.len() < 2 || (after.len() > before.len() && lies_over(after.last(), from, last)),
        forall|x: u128, a: u16, b: u16|
            #![trigger claims(sites, x, a), claims(sites, x, b)]
            start <= x < from && a != b && claims(sites, x, a) && claims(sites, x, b)
                ==> address_reported(before, x),
    ensures
        forall|x: u128, a: u16, b: u16|
            #![trigger claims(sites, x, a), claims(sites, x, b)]
            start <= x <= last && a != b && claims(sites, x, a) && claims(sites, x, b)
                ==> address_reported(after, x),
{
    assert forall|x: u128, a: u16, b: u16|
        #![trigger claims(sites, x, a), claims(sites, x, b)]
        start <= x <= last && a != b && claims(sites, x, a) && claims(
            sites,
            x,
            b,
        ) implies address_reported(after, x) by {
        if x < from {
            let k = choose|k: int| 0 <= k < before.len() && about_address(
                #[trigger] before[k],
                x,
            );
            assert(after[k] == before[k]);
        } else {
            if ids.len() < 2 {
                lemma_few(ids, a, b);
            }
            assert(about_address(after[after.len() - 1], x));
        }
    }
}

spec fn lies_over(c: Contest, from: u128, to: u128) -> bool {
    c matches Contest::Range { start, end, sites } && start <= from && to <= end
}

/// Two contested stretches do not touch.
proof fn lemma_contested_are_apart(segs: Seq<Segment>, j: int, k: int)
    requires
        flat(segs),
        0 <= j < k < segs.len(),
        segs[j].id == segs[k].id,
    ensures
        segs[j].end + 1 < segs[k].start,
{
    if k > j + 1 {
        assert(segs[j].end < segs[j + 1].start);
        assert(segs[j + 1].start <= segs[j + 1].end);
        assert(segs[j + 1].end < segs[k].start);
    } else {
        assert(segs[j].end < segs[k].start);
        assert(segs[j].end + 1 != segs[k].start);
    }
}

/// A list of fewer than two holds no two different values.
proof fn lemma_few(ids: Seq<u16>, a: u16, b: u16)
    requires
        ids.len() < 2,
        ids.contains(a),
        ids.contains(b),
    ensures
        a == b,
{
}

// --- addresses ----------------------------------------------------------------

/// Two octets in network order.
pub open spec fn be2(n: u16) -> Seq<u8> {
    seq![(n / 256) as u8, (n % 256) as u8]
}

pub open spec fn zeros(n: nat) -> Seq<u8> {
    Seq::new(n, |i: int| 0u8)
}

/// The first four octets.
pub open spec fn four(s: Seq<u8>) -> Seq<u8> {
    Seq::new(4, |i: int| s[i])
}

/// A machine of a site: the net, two octets of padding, the site, the machine.
pub open spec fn site_octets(net: Seq<u8>, id: u16, machine: Seq<u8>) -> Seq<u8> {
    net + zeros(2) + be2(id) + machine
}

/// A machine behind a label that no site lists, by the label's digest.
pub open spec fn label_octets(prefix: Seq<u8>, digest: Seq<u8>, machine: Seq<u8>) -> Seq<u8> {
    prefix + be2(KIND_VPCE) + four(digest) + machine
}

/// A plain IPv4 client.
pub open spec fn plain_octets(prefix: Seq<u8>, machine: Seq<u8>) -> Seq<u8> {
    prefix + be2(KIND_ADDR) + zeros(4) + machine
}

/// IPv4 as ::ffff:a.b.c.d, so site prefixes of both families live in one set.
pub open spec fn mapped_octets(q: Seq<u8>) -> Seq<u8> {
    zeros(10) + seq![0xffu8, 0xffu8] + q
}

/// The first four bytes of what SHA-256 makes of `data` are what a label's
/// address holds; nothing else of it is used.
pub uninterp spec fn sha256(data: Seq<u8>) -> Seq<u8>;

/// `Sha256::digest` of sha2: the SHA-256 digest of `data`, a function of those
/// bytes alone.
#[verifier::external_body]
fn digest_of(data: &[u8]) -> (r: [u8; 32])
    ensures
        r@ == sha256(data@),
{
    Sha256::digest(data).into()
}

pub fn site_address(net: &ViaPrefix, id: u16, machine: &[u8; 4]) -> (r: [u8; 16])
    ensures
        r@ == site_octets(net@, id, machine@),
{
    let r = [
        net[0],
        net[1],
        net[2],
        net[3],
        net[4],
        net[5],
        net[6],
        net[7],
        0,
        0,
        (id / 256) as u8,
        (id % 256) as u8,
        machine[0],
        machine[1],
        machine[2],
        machine[3],
    ];
    assert(r@ =~= site_octets(net@, id, machine@));
    r
}

/// The address of a label, given its SHA-256 digest.
pub fn label_address(prefix: &Prefix, digest: &[u8; 32], machine: &[u8; 4]) -> (r: [u8; 16])
    ensures
        r@ == label_octets(prefix@, digest@, machine@),
{
    let r = [
        prefix[0],
        prefix[1],
        prefix[2],
        prefix[3],
        prefix[4],
        prefix[5],
        0,
        1,
        digest[0],
        digest[1],
        digest[2],
        digest[3],
        machine[0],
        machine[1],
        machine[2],
        machine[3],
    ];
    assert(r@ =~= label_octets(prefix@, digest@, machine@));
    r
}

pub fn plain_address(prefix: &Prefix, machine: &[u8; 4]) -> (r: [u8; 16])
    ensures
        r@ == plain_octets(prefix@, machine@),
{
    let r = [
        prefix[0],
        prefix[1],
        prefix[2],
        prefix[3],
        prefix[4],
        prefix[5],
        0,
        4,
        0,
        0,
        0,
        0,
        machine[0],
        machine[1],
        machine[2],
        machine[3],
    ];
    assert(r@ =~= plain_octets(prefix@, machine@));
    r
}

pub(crate) fn mapped_v4(q: &[u8; 4]) -> (r: [u8; 16])
    ensures
        r@ == mapped_octets(q@),
{
    let r = [0, 0, 0, 0, 0, 0, 0, 0, 0, 0, 0xff, 0xff, q[0], q[1], q[2], q[3]];
    assert(r@ =~= mapped_octets(q@));
    r
}

/// The number an address is, most significant octet first.
pub fn to_u128(addr: [u8; 16]) -> (r: u128)
    ensures
        r == be(addr@),
{
    number_of(&addr)
}

// --- synthesis ----------------------------------------------------------------

/// The source of a header as one number, whichever family it is of.
pub open spec fn mapped_src(h: HeaderView) -> int {
    if h.is_v6 {
        be(h.src)
    } else {
        be(mapped_octets(four(h.src)))
    }
}

/// The site that a header resolves to, and whether the header's source is the
/// tenant's OWN address.
///
/// vpce-id first: an AWS-assigned id outranks an address the sender chose. A vpce
/// match means the source is the tenant's own machine. A CIDR match means it is a
/// NAT in front of them, which is not an address in their space.
pub open spec fn site_of(s: SchemeView, h: HeaderView) -> Option<(u16, bool)> {
    if h.vpce.len() > 0 && s.label_site(h.vpce) is Some {
        Some((s.label_site(h.vpce)->Some_0, true))
    } else {
        match s.addr_site(mapped_src(h) as u128) {
            Some(id) => Some((id, false)),
            None => None,
        }
    }
}

/// The IPv4 address that the low 32 bits carry: none where the client has none.
pub open spec fn machine_of(h: HeaderView) -> Seq<u8> {
    if h.is_v6 {
        zeros(4)
    } else {
        four(h.src)
    }
}

/// The address of a header. Four cases, and the order matters.
pub open spec fn synthesized(s: SchemeView, h: HeaderView) -> Seq<u8> {
    match site_of(s, h) {
        // Zero unless the source is the tenant's own address: <net>:0:<site>::
        // reads as "this tenant, machine unknown" and stays in the tenant's /96.
        Some((id, inner)) => site_octets(
            s.site_net->Some_0,
            id,
            if inner {
                machine_of(h)
            } else {
                zeros(4)
            },
        ),
        // A vpce-id is not an address, so give it one.
        None => if h.vpce.len() > 0 {
            label_octets(s.prefix, sha256(h.vpce), machine_of(h))
        } else if h.is_v6 {
            h.src
        } else {
            plain_octets(s.prefix, four(h.src))
        },
    }
}

/// The source of a header as one number.
pub fn mapped(h: &Header) -> (r: u128)
    ensures
        r == mapped_src(h@),
{
    if h.is_v6 {
        return number_of(&h.src);
    }
    let q = [h.src[0], h.src[1], h.src[2], h.src[3]];
    assert(q@ =~= four(h.src@));
    number_of(&mapped_v4(&q))
}

fn machine(h: &Header) -> (r: [u8; 4])
    ensures
        r@ == machine_of(h@),
{
    if h.is_v6 {
        let none = [0, 0, 0, 0];
        assert(none@ =~= zeros(4));
        none
    } else {
        let q = [h.src[0], h.src[1], h.src[2], h.src[3]];
        assert(q@ =~= four(h.src@));
        q
    }
}

/// The address of a header whose site match and label digest are known. Neither
/// is looked at where the case does not call for it.
pub fn synthesize_with(
    prefix: &Prefix,
    site: Option<(&ViaPrefix, u16, bool)>,
    digest: Option<&[u8; 32]>,
    h: &Header,
) -> (r: [u8; 16])
    ensures
        r@ == match (site, digest) {
            (Some((net, id, inner)), _) => site_octets(
                net@,
                id,
                if inner {
                    machine_of(h@)
                } else {
                    zeros(4)
                },
            ),
            (None, Some(d)) => label_octets(prefix@, d@, machine_of(h@)),
            (None, None) => if h.is_v6 {
                h@.src
            } else {
                plain_octets(prefix@, four(h@.src))
            },
        },
{
    if let Some((net, id, inner)) = site {
        if inner {
            return site_address(net, id, &machine(h));
        }
        let none = [0, 0, 0, 0];
        assert(none@ =~= zeros(4));
        return site_address(net, id, &none);
    }
    if let Some(d) = digest {
        return label_address(prefix, d, &machine(h));
    }
    if h.is_v6 {
        return h.src;
    }
    plain_address(prefix, &machine(h))
}

/// The address of a header.
pub fn synthesize(scheme: &Scheme, h: &Header) -> (r: [u8; 16])
    ensures
        r@ == synthesized(scheme@, h@),
{
    let by_label = if h.vpce.len() > 0 {
        scheme.label_site(h.vpce)
    } else {
        None
    };
    let matched = match by_label {
        Some(id) => Some((id, true)),
        None => match scheme.addr_site(mapped(h)) {
            Some(id) => Some((id, false)),
            None => None,
        },
    };
    assert(matched == site_of(scheme@, h@));
    if let (Some((id, inner)), Some(net)) = (matched, &scheme.site_net) {
        return synthesize_with(&scheme.prefix, Some((net, id, inner)), None, h);
    }
    // A match takes a net.
    assert(matched is None);
    if h.vpce.len() > 0 {
        let digest = digest_of(h.vpce);
        return synthesize_with(&scheme.prefix, None, Some(&digest), h);
    }
    synthesize_with(&scheme.prefix, None, None, h)
}

// --- text ---------------------------------------------------------------------

/// An address in text.
#[derive(Debug)]
pub struct AddrText {
    text: String,
}

impl View for AddrText {
    type V = Seq<char>;

    closed spec fn view(&self) -> Seq<char> {
        self.text@
    }
}

impl AddrText {
    pub fn as_str(&self) -> (r: &str)
        ensures
            r@ == self@,
    {
        self.text.as_str()
    }
}

/// RFC 5952 text.
pub fn format(addr: [u8; 16]) -> (r: AddrText)
    ensures
        r@ == v6_text(addr@),
{
    AddrText { text: write_v6(&addr) }
}

/// The raw header source, for the log. IPv4 as dotted quad, not ::ffff: form --
/// what is wanted here is what the tenant's own machine calls itself.
pub fn format_src(src: [u8; 16], is_v6: bool) -> (r: AddrText)
    ensures
        r@ == if is_v6 {
            v6_text(src@)
        } else {
            v4_text(four(src@))
        },
{
    if is_v6 {
        AddrText { text: write_v6(&src) }
    } else {
        let q = [src[0], src[1], src[2], src[3]];
        assert(q@ =~= four(src@));
        AddrText { text: write_v4(&q) }
    }
}

/// The leading octets of a unique-local prefix of `bits` bits, written with its
/// width or without.
pub open spec fn ula(
    s: Seq<char>,
    bits: int,
    wrong_width: Seq<char>,
    low_bits: Seq<char>,
) -> Result<Seq<u8>, Seq<char>> {
    let k = find(s, '/');
    let width = if k < s.len() {
        uint(s.skip(k + 1), u8::MAX as int)
    } else {
        Some(bits)
    };
    if width is None {
        Err("bad prefix length"@)
    } else {
        match v6(s.take(k)) {
            None => Err("bad IPv6 address"@),
            Some(o) => if width != Some(bits) {
                Err(wrong_width)
            } else if o[0] != 0xfc && o[0] != 0xfd {
                Err("not unique-local"@)
            } else if exists|i: int| bits / 8 <= i < 16 && #[trigger] o[i] != 0 {
                Err(low_bits)
            } else {
                Ok(o.take(bits / 8))
            },
        }
    }
}

/// The sixteen octets of a unique-local prefix of `bits` bits.
#[verifier::loop_isolation(false)]
fn read_ula(text: &str, bits: u8, wrong_width: &'static str, low_bits: &'static str) -> (r: Result<
    [u8; 16],
    &'static str,
>)
    requires
        8 <= bits <= 128,
    ensures
        match r {
            Ok(o) => ula(text@, bits as int, wrong_width@, low_bits@) == Ok::<
                Seq<u8>,
                Seq<char>,
            >(o@.take(bits as int / 8)),
            Err(e) => ula(text@, bits as int, wrong_width@, low_bits@) == Err::<
                Seq<u8>,
                Seq<char>,
            >(e@),
        },
{
    let chars = chars_of(text);
    let slash = find_char(&chars, '/');
    let width = if slash < chars.len() {
        let tail = slice_subrange(&chars, slash + 1, chars.len());
        assert(tail@ =~= text@.skip(slash + 1));
        match read_uint(tail, 255) {
            Some(w) => w as u8,
            None => {
                return Err("bad prefix length");
            },
        }
    } else {
        bits
    };
    let head = slice_subrange(&chars, 0, slash);
    assert(head@ =~= text@.take(slash as int));
    let o = match read_v6(head) {
        Some(o) => o,
        None => {
            return Err("bad IPv6 address");
        },
    };
    if width != bits {
        return Err(wrong_width);
    }
    if o[0] != 0xfc && o[0] != 0xfd {
        return Err("not unique-local");
    }
    // Only the leading octets are kept, so lower bits would vanish silently.
    let mut i: usize = (bits / 8) as usize;
    while i < 16
        invariant
            bits / 8 <= i <= 16,
            forall|j: int| bits / 8 <= j < i ==> #[trigger] o@[j] == 0,
        decreases 16 - i,
    {
        if o[i] != 0 {
            assert(o@[i as int] != 0);
            return Err(low_bits);
        }
        i += 1;
    }
    Ok(o)
}

pub open spec fn prefix_of(s: Seq<char>) -> Result<Seq<u8>, Seq<char>> {
    ula(s, 48, "prefix must be /48"@, "prefix has bits set below /48"@)
}

pub open spec fn via_prefix_of(s: Seq<char>) -> Result<Seq<u8>, Seq<char>> {
    ula(s, 64, "via prefix must be /64"@, "via prefix has bits set below /64"@)
}

pub fn parse_prefix(text: &str) -> (r: Result<Prefix, &'static str>)
    ensures
        match r {
            Ok(p) => prefix_of(text@) == Ok::<Seq<u8>, Seq<char>>(p@),
            Err(e) => prefix_of(text@) == Err::<Seq<u8>, Seq<char>>(e@),
        },
{
    match read_ula(text, 48, "prefix must be /48", "prefix has bits set below /48") {
        Ok(o) => {
            let p = [o[0], o[1], o[2], o[3], o[4], o[5]];
            assert(p@ =~= o@.take(6));
            Ok(p)
        },
        Err(e) => Err(e),
    }
}

pub fn parse_via_prefix(text: &str) -> (r: Result<ViaPrefix, &'static str>)
    ensures
        match r {
            Ok(p) => via_prefix_of(text@) == Ok::<Seq<u8>, Seq<char>>(p@),
            Err(e) => via_prefix_of(text@) == Err::<Seq<u8>, Seq<char>>(e@),
        },
{
    match read_ula(text, 64, "via prefix must be /64", "via prefix has bits set below /64") {
        Ok(o) => {
            let p = [o[0], o[1], o[2], o[3], o[4], o[5], o[6], o[7]];
            assert(p@ =~= o@.take(8));
            Ok(p)
        },
        Err(e) => Err(e),
    }
}

// --- the source grammar -------------------------------------------------------

/// An address and a width.
pub open spec fn net_text(o: Seq<u8>, bits: int) -> Seq<char> {
    v6_text(o).push('/') + numeral(bits, false)
}

/// The whole tenant: the site's net and id, machine bits open -- /96.
pub open spec fn site_space(net: Seq<u8>, id: u16) -> Seq<char> {
    net_text(site_octets(net, id, zeros(4)), 96)
}

/// The site that `!N` names: a declared one, or the quarantine site, which is
/// system-owned and always nameable.
pub open spec fn site_ref(s: SchemeView, m: Seq<char>) -> Option<u16> {
    if m.len() > 0 && m[0] == '!' && s.site_net is Some {
        match uint(m.skip(1), u16::MAX as int) {
            Some(id) => if id == SITE_CONTESTED || s.declares(id as u16) {
                Some(id as u16)
            } else {
                None
            },
            None => None,
        }
    } else {
        None
    }
}

/// The width after the slash, or `max` where there is no slash.
pub open spec fn width_of(m: Seq<char>, max: int) -> Option<int> {
    let k = find(m, '/');
    if k < m.len() {
        uint(m.skip(k + 1), max)
    } else {
        Some(max)
    }
}

/// An IPv4 source: its octets, and its width.
pub open spec fn v4_source(m: Seq<char>) -> Option<(Seq<u8>, int)> {
    match (v4(m.take(find(m, '/'))), width_of(m, 32)) {
        (Some(q), Some(bits)) => Some((q, bits)),
        _ => None,
    }
}

/// An IPv6 source: its octets, and its width.
pub open spec fn v6_source(m: Seq<char>) -> Option<(Seq<u8>, int)> {
    match (v6(m.take(find(m, '/'))), width_of(m, 128)) {
        (Some(o), Some(bits)) => Some((o, bits)),
        _ => None,
    }
}

/// The site that owns every address of a block.
pub open spec fn block_site(s: SchemeView, base: int, bits: int) -> Option<u16> {
    let start = base - base % block(bits);
    s.range_site(start as u128, (start + block(bits) - 1) as u128)
}

/// What one authored source encodes to under a scheme: exactly what a header
/// carrying it encodes to, so the two meet by construction.
///
///   !N          -> site N's space, /96 (whatever its sources are, even none yet)
///   ipv4[/N]    -> the owning site's space where one site owns the whole range,
///                  else the kind-4 lift, /(96+N)
///   ipv6[/N]    -> the owning site's space, else itself
///   label       -> the owning site's space, else the kind-1 hash of the whole
///                  string, /96
///
/// TOTAL over strings, like the wire: a label is anything that is not a valid
/// address or a valid !site -- "10.0.0.1/99", "!x", "fd00::1/129" included.
pub open spec fn encoded(s: SchemeView, m: Seq<char>) -> Seq<char> {
    let net = s.site_net->Some_0;
    match (site_ref(s, m), v4_source(m), v6_source(m)) {
        (Some(id), _, _) => site_space(net, id),
        (None, Some((q, bits)), _) => match block_site(s, be(mapped_octets(q)), 96 + bits) {
            Some(id) => site_space(net, id),
            None => net_text(plain_octets(s.prefix, q), 96 + bits),
        },
        (None, None, Some((o, bits))) => match block_site(s, be(o), bits) {
            Some(id) => site_space(net, id),
            None => net_text(o, bits),
        },
        (None, None, None) => match s.label_site(encode_utf8(m)) {
            Some(id) => site_space(net, id),
            None => net_text(label_octets(s.prefix, sha256(encode_utf8(m)), zeros(4)), 96),
        },
    }
}

/// What one authored source encodes to without a scheme: an IPv6 source is
/// itself, and nothing else has a space to land in.
pub open spec fn encoded_bare(m: Seq<char>) -> Result<Seq<char>, Seq<char>> {
    match (v4_source(m), v6_source(m)) {
        (None, Some((o, bits))) => Ok(net_text(o, bits)),
        _ => Err(needs_ula_text(quoted(m))),
    }
}

pub open spec fn needs_ula_text(quoted_member: Seq<char>) -> Seq<char> {
    quoted_member + " needs `ula` to encode"@
}

/// What is said of a source with no `ula` to encode into.
pub fn needs_ula(quoted_member: &str) -> (r: String)
    ensures
        r@ == needs_ula_text(quoted_member@),
{
    concat(quoted_member, " needs `ula` to encode")
}

pub(crate) fn write_net(o: &[u8; 16], bits: u8) -> (r: String)
    ensures
        r@ == net_text(o@, bits as int),
{
    let mut out = write_v6(o);
    out.push('/');
    push_number(&mut out, bits as u32, false);
    out
}

fn write_site(net: &ViaPrefix, id: u16) -> (r: String)
    ensures
        r@ == site_space(net@, id),
{
    let none = [0, 0, 0, 0];
    assert(none@ =~= zeros(4));
    write_net(&site_address(net, id, &none), 96)
}

fn read_width(chars: &[char], slash: usize, max: u8) -> (r: Option<u8>)
    requires
        slash == find(chars@, '/'),
        slash <= chars@.len(),
    ensures
        match r {
            Some(bits) => width_of(chars@, max as int) == Some(bits as int),
            None => width_of(chars@, max as int) is None,
        },
        r matches Some(bits) ==> bits <= max,
{
    if slash == chars.len() {
        return Some(max);
    }
    let tail = slice_subrange(chars, slash + 1, chars.len());
    assert(tail@ =~= chars@.skip(slash + 1));
    match read_uint(tail, max as u32) {
        Some(w) => Some(w as u8),
        None => None,
    }
}

impl Scheme {
    /// Whether a site has been declared with this id.
    pub fn declares(&self, id: u16) -> (r: bool)
        ensures
            r == self@.declares(id),
    {
        let mut i: usize = 0;
        while i < self.sites.len()
            invariant
                i <= self.sites@.len(),
                forall|j: int| 0 <= j < i ==> (#[trigger] self.sites@[j]).id != id,
            decreases self.sites@.len() - i,
        {
            if self.sites[i].id == id {
                assert(self@.sites[i as int].id == id);
                return true;
            }
            i += 1;
        }
        assert forall|j: int| 0 <= j < self@.sites.len() implies (#[trigger] self@.sites[j]).id
            != id by {
            assert(self.sites@[j].id != id);
        }
        false
    }

    /// The site that `!N` names.
    fn site_ref(&self, chars: &[char]) -> (r: Option<u16>)
        ensures
            r == site_ref(self@, chars@),
    {
        if self.site_net.is_none() || chars.len() == 0 || chars[0] != '!' {
            return None;
        }
        let tail = slice_subrange(chars, 1, chars.len());
        assert(tail@ =~= chars@.skip(1));
        match read_uint(tail, 65535) {
            Some(n) => {
                let id = n as u16;
                if id == SITE_CONTESTED || self.declares(id) {
                    Some(id)
                } else {
                    None
                }
            },
            None => None,
        }
    }

    /// The site that owns every address of a block, and the net it lives in.
    fn block_site(&self, base: u128, bits: u8) -> (r: Option<(&ViaPrefix, u16)>)
        requires
            bits <= 128,
        ensures
            match r {
                Some((net, id)) => block_site(self@, base as int, bits as int) == Some(id)
                    && self@.site_net == Some(net@),
                None => block_site(self@, base as int, bits as int) is None,
            },
    {
        let (start, end) = range_of(base, bits);
        let id = self.range_site(start, end);
        proof {
            if self@.site_net is None {
                assert forall|i: u16| !self@.holds_all(start, end, i) by {
                    assert(self@.addr_site(start) is None);
                }
            }
        }
        match (id, &self.site_net) {
            (Some(id), Some(net)) => Some((net, id)),
            _ => None,
        }
    }

    /// The address of a label that no site lists, given its digest.
    pub fn encode_label(&self, digest: &[u8; 32]) -> (r: String)
        ensures
            r@ == net_text(label_octets(self@.prefix, digest@, zeros(4)), 96),
    {
        let none = [0, 0, 0, 0];
        assert(none@ =~= zeros(4));
        write_net(&label_address(&self.prefix, digest, &none), 96)
    }

    /// Encode one source.
    fn encode(&self, member: &str) -> (r: String)
        ensures
            r@ == encoded(self@, member@),
    {
        let chars = chars_of(member);
        let named = self.site_ref(&chars);
        if let (Some(id), Some(net)) = (named, &self.site_net) {
            return write_site(net, id);
        }
        assert(named is None);
        let slash = find_char(&chars, '/');
        let head = slice_subrange(&chars, 0, slash);
        assert(head@ =~= member@.take(slash as int));
        if let (Some(q), Some(bits)) = (read_v4(head), read_width(&chars, slash, 32)) {
            let wide = mapped_v4(&q);
            if let Some((net, id)) = self.block_site(number_of(&wide), 96 + bits) {
                return write_site(net, id);
            }
            return write_net(&plain_address(&self.prefix, &q), 96 + bits);
        }
        if let (Some(o), Some(bits)) = (read_v6(head), read_width(&chars, slash, 128)) {
            if let Some((net, id)) = self.block_site(number_of(&o), bits) {
                return write_site(net, id);
            }
            return write_net(&o, bits);
        }
        let owner = self.label_site(member.as_bytes());
        if let (Some(id), Some(net)) = (owner, &self.site_net) {
            return write_site(net, id);
        }
        assert(owner is None);
        self.encode_label(&digest_of(member.as_bytes()))
    }
}

/// Config-time twin of `synthesize`: encode one authored source exactly the way
/// the packet path encodes a header carrying it. The one refusal is a source with
/// no `scheme` to encode into.
pub fn encode_member(scheme: Option<&Scheme>, member: &str) -> (r: Result<String, String>)
    ensures
        match r {
            Ok(t) => match scheme {
                Some(s) => encoded(s@, member@) == t@,
                None => encoded_bare(member@) == Ok::<Seq<char>, Seq<char>>(t@),
            },
            Err(e) => scheme is None && encoded_bare(member@) == Err::<Seq<char>, Seq<char>>(e@),
        },
{
    if let Some(s) = scheme {
        return Ok(s.encode(member));
    }
    let chars = chars_of(member);
    let slash = find_char(&chars, '/');
    let head = slice_subrange(&chars, 0, slash);
    assert(head@ =~= member@.take(slash as int));
    let plain = read_v4(head).is_some() && read_width(&chars, slash, 32).is_some();
    if !plain {
        if let (Some(o), Some(bits)) = (read_v6(head), read_width(&chars, slash, 128)) {
            return Ok(write_net(&o, bits));
        }
    }
    Err(needs_ula(&quote(member)))
}

/// The spaces of all sites, in the order of their ids.
pub open spec fn all_site_spaces(s: SchemeView) -> Seq<Seq<char>> {
    if s.site_net is Some {
        s.sites.map_values(|site: Site| site_space(s.site_net->Some_0, site.id))
    } else {
        seq![]
    }
}

/// Every DECLARED site's space.
pub fn encode_all_sites(scheme: &Scheme) -> (r: Vec<String>)
    ensures
        r@.map_values(|t: String| t@) == all_site_spaces(scheme@),
{
    let mut out: Vec<String> = Vec::new();
    if let Some(net) = &scheme.site_net {
        let mut i: usize = 0;
        while i < scheme.sites.len()
            invariant
                i <= scheme.sites@.len(),
                out@.len() == i,
                forall|j: int|
                    0 <= j < i ==> (#[trigger] out@[j])@ == site_space(
                        net@,
                        scheme.sites@[j].id,
                    ),
            decreases scheme.sites@.len() - i,
        {
            out.push(write_site(net, scheme.sites[i].id));
            i += 1;
        }
    }
    assert(out@.map_values(|t: String| t@) =~= all_site_spaces(scheme@));
    out
}

} // verus!
