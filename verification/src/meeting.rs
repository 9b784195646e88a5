//! A rule and the header it is written for meet on the same address: what a
//! source encodes to as a rule holds what a header carrying it synthesizes to.

use crate::cidr::{
    blocks, cidr, entries_of, is_separator, law_blocks_are_read_one_by_one, lemma_solid_entries,
    solid, within, Block,
};
use crate::identity::{
    about_address, about_label, address_reported, be2, block_site, claims, encoded, encoded_bare, four, is_contest, label_octets,
    label_reported,
    law_contested_addresses_are_quarantined, law_contested_labels_are_quarantined,
    law_sole_claimant_owns, law_unclaimed_is_nobodys, lists, machine_of, mapped_octets,
    mapped_src, names, net_text, prefix_of, plain_octets, sha256, site_octets, site_of,
    site_ref, site_space, synthesized, v4_source, v6_source, via_prefix_of, width_of, zeros, KIND_ADDR, KIND_SITE,
    KIND_VPCE, Contest, SchemeView, Site,
};
use crate::segments::lemma_settled_one;
use crate::ip::{
    all_address_chars, dec_piece, find_gap, groups, hex_piece, is_address_char, law_v4_is_not_v6,
    law_v4_text_reads_back, law_v6_text_reads_back, lemma_gap, lemma_v4_len, v4, v4_text, v6,
    v6_text,
};
use crate::ppv2::HeaderView;
use crate::prefix::{
    be, block, covers, law_be_is_injective, law_blocks_nest, lemma_be_bound, lemma_block_is_range,
    lemma_pow2_128,
};
use crate::text::{
    find, is_digit, lemma_find, lemma_find_is, lemma_numeral, lemma_uint_bound,
    lemma_uint_of_numeral, numeral, quoted, uint,
};
use vstd::arithmetic::div_mod::{
    lemma_basic_div, lemma_div_denominator, lemma_div_pos_is_pos, lemma_fundamental_div_mod,
    lemma_fundamental_div_mod_converse,
};
use vstd::arithmetic::power2::{lemma2_to64, lemma_pow2_adds, lemma_pow2_pos, pow2};
use vstd::prelude::*;
use vstd::utf8::encode_utf8;

verus! {

/// The rule reads as a block, and the address lies in it.
pub open spec fn admits(rule: Seq<char>, addr: Seq<u8>) -> bool {
    cidr(rule) matches Ok(b) && b.contains(be(addr) as u128)
}

proof fn lemma_be_append(a: Seq<u8>, b: Seq<u8>)
    ensures
        be(a + b) == be(a) * pow2(8 * b.len()) + be(b),
    decreases b.len(),
{
    if b.len() == 0 {
        assert(a + b =~= a);
        lemma2_to64();
        assert(pow2(8 * b.len()) == 1);
        assert(be(a) * 1 == be(a)) by (nonlinear_arith);
    } else {
        lemma_be_append(a, b.drop_last());
        assert((a + b).drop_last() =~= a + b.drop_last());
        assert((a + b).last() == b.last());
        let n = 8 * b.drop_last().len();
        lemma_pow2_adds(8, n);
        assert(8 * b.len() == 8 + n);
        lemma2_to64();
        let p = pow2(n) as int;
        assert(256 * (be(a) * p) == be(a) * (256 * p)) by (nonlinear_arith);
    }
}

/// An address text with a width reads back as that block.
pub proof fn law_net_text_reads_back(o: Seq<u8>, bits: int)
    requires
        o.len() == 16,
        0 <= bits <= 128,
    ensures
        cidr(net_text(o, bits)) == Ok::<Block, Seq<char>>(Block { base: be(o), bits }),
{
    let head = v6_text(o);
    let s = net_text(o, bits);
    law_v6_text_reads_back(o);
    assert forall|i: int| 0 <= i < head.len() implies s[i] != '/' by {
        assert(s[i] == head[i]);
        assert(is_address_char(head[i]));
    }
    assert(s[head.len() as int] == '/');
    lemma_find_is(s, '/', head.len() as int);
    assert(s.take(head.len() as int) =~= head);
    assert(s.skip(head.len() as int + 1) =~= numeral(bits, false));
    lemma_uint_of_numeral(bits, u32::MAX as int);
}

/// The low 32 bits decide within one /96.
proof fn lemma_low_bits(a: Seq<u8>, q: Seq<u8>, r: Seq<u8>, bits: int)
    requires
        q.len() == 4,
        r.len() == 4,
        0 <= bits <= 32,
    ensures
        covers(be(a + q), 96 + bits, be(a + r)) <==> be(q) / pow2((32 - bits) as nat) as int
            == be(r) / pow2((32 - bits) as nat) as int,
{
    let m = pow2((32 - bits) as nat) as int;
    let k = pow2(bits as nat) as int;
    lemma_pow2_pos((32 - bits) as nat);
    lemma_pow2_adds((32 - bits) as nat, bits as nat);
    assert((32 - bits) as nat + bits as nat == 32nat);
    assert((128 - (96 + bits)) as nat == (32 - bits) as nat);
    lemma_be_append(a, q);
    lemma_be_append(a, r);
    assert(be(a) * (m * k) == m * (be(a) * k)) by (nonlinear_arith);
    lemma_shifted(be(a) * k, be(q), m);
    lemma_shifted(be(a) * k, be(r), m);
}

proof fn lemma_shifted(c: int, x: int, m: int)
    requires
        m > 0,
    ensures
        (m * c + x) / m == c + x / m,
{
    lemma_fundamental_div_mod(x, m);
    assert(m * c + x == m * (c + x / m) + x % m) by (nonlinear_arith)
        requires
            x == m * (x / m) + x % m,
    ;
    lemma_fundamental_div_mod_converse(
        m * c + x,
        m,
        c + x / m,
        x % m,
    );
}

/// Addresses that agree on their first `n` octets share a block of that many, and
/// no others do.
proof fn lemma_share(a: Seq<u8>, b: Seq<u8>, n: int)
    requires
        a.len() == 16,
        b.len() == 16,
        0 <= n <= 16,
    ensures
        covers(be(a), 8 * n, be(b)) <==> a.take(n) == b.take(n),
{
    assert(a =~= a.take(n) + a.skip(n));
    assert(b =~= b.take(n) + b.skip(n));
    lemma_be_append(a.take(n), a.skip(n));
    lemma_be_append(b.take(n), b.skip(n));
    lemma_be_bound(a.skip(n));
    lemma_be_bound(b.skip(n));
    let m = pow2((128 - 8 * n) as nat) as int;
    assert(8 * a.skip(n).len() == (128 - 8 * n) as nat);
    assert(8 * b.skip(n).len() == (128 - 8 * n) as nat);
    lemma_pow2_pos((128 - 8 * n) as nat);
    lemma_shifted(be(a.take(n)), be(a.skip(n)), m);
    lemma_shifted(be(b.take(n)), be(b.skip(n)), m);
    assert(be(a.take(n)) * m == m * be(a.take(n))) by (nonlinear_arith);
    assert(be(b.take(n)) * m == m * be(b.take(n))) by (nonlinear_arith);
    lemma_basic_div(be(a.skip(n)), m);
    lemma_basic_div(be(b.skip(n)), m);
    if be(a.take(n)) == be(b.take(n)) {
        law_be_is_injective(a.take(n), b.take(n));
    }
}

proof fn lemma_fits(a: Seq<u8>)
    requires
        a.len() == 16,
    ensures
        0 <= be(a) <= u128::MAX,
{
    lemma_be_bound(a);
    lemma_pow2_128();
}

/// A site's space holds exactly the addresses of that site.
pub proof fn law_site_space_is_the_site(net: Seq<u8>, id: u16, addr: Seq<u8>)
    requires
        net.len() == 8,
        addr.len() == 16,
    ensures
        admits(site_space(net, id), addr) <==> addr.take(12) == net + zeros(2) + be2(id),
{
    let base = site_octets(net, id, zeros(4));
    law_net_text_reads_back(base, 96);
    lemma_share(base, addr, 12);
    lemma_fits(addr);
    assert(base.take(12) =~= net + zeros(2) + be2(id));
}

/// Two sites' spaces have no address in common.
pub proof fn law_site_spaces_are_disjoint(net: Seq<u8>, a: u16, b: u16, addr: Seq<u8>)
    requires
        net.len() == 8,
        addr.len() == 16,
        admits(site_space(net, a), addr),
        admits(site_space(net, b), addr),
    ensures
        a == b,
{
    law_site_space_is_the_site(net, a, addr);
    law_site_space_is_the_site(net, b, addr);
    let left = net + zeros(2) + be2(a);
    let right = net + zeros(2) + be2(b);
    assert(left[10] == be2(a)[0] && left[11] == be2(a)[1]);
    assert(right[10] == be2(b)[0] && right[11] == be2(b)[1]);
    assert(a == 256 * (a / 256) + a % 256);
    assert(b == 256 * (b / 256) + b % 256);
}

proof fn lemma_site_matches(s: SchemeView, h: HeaderView, id: u16, inner: bool)
    requires
        s.well_formed(),
        site_of(s, h) == Some((id, inner)),
        h.src.len() == 16,
    ensures
        s.site_net is Some,
        synthesized(s, h).len() == 16,
        admits(site_space(s.site_net->Some_0, id), synthesized(s, h)),
{
    let net = s.site_net->Some_0;
    let addr = synthesized(s, h);
    assert(addr.take(12) =~= net + zeros(2) + be2(id));
    law_site_space_is_the_site(net, id, addr);
}

proof fn lemma_v4_starts_with_digit(t: Seq<char>)
    requires
        v4(t) is Some,
    ensures
        t.len() > 0,
        is_digit(t[0], false),
{
    lemma_find(t, '.');
    let piece = t.take(find(t, '.'));
    assert(dec_piece(piece) is Some);
    assert(is_digit(piece[0], false));
}

proof fn lemma_groups_start(t: Seq<char>, tail: bool)
    requires
        groups(t, tail) is Some,
    ensures
        t.len() > 0,
        is_digit(t[0], true),
{
    let k = find(t, ':');
    lemma_find(t, ':');
    if k >= t.len() {
        if hex_piece(t) is Some {
            assert(is_digit(t[0], true));
        } else {
            lemma_v4_starts_with_digit(t);
        }
    } else {
        let piece = t.take(k);
        assert(hex_piece(piece) is Some);
        assert(is_digit(piece[0], true));
    }
}

proof fn lemma_v6_start(t: Seq<char>)
    requires
        v6(t) is Some,
    ensures
        t.len() > 0,
        is_digit(t[0], true) || t[0] == ':',
{
    let k = find_gap(t);
    if k < t.len() {
        lemma_gap(t);
        if k > 0 {
            assert(t.take(k).len() > 0);
            lemma_groups_start(t.take(k), false);
        }
    } else {
        lemma_groups_start(t, true);
    }
}

/// No address is the empty text.
pub proof fn lemma_v6_is_text(t: Seq<char>)
    requires
        v6(t) is Some,
    ensures
        t.len() > 0,
{
    lemma_v6_start(t);
}

pub proof fn lemma_v4_is_text(t: Seq<char>)
    requires
        v4(t) is Some,
    ensures
        t.len() > 0,
{
    lemma_v4_starts_with_digit(t);
}

/// A source that reads as an address never names a site.
proof fn lemma_addresses_name_no_site(s: SchemeView, m: Seq<char>)
    requires
        v4_source(m) is Some || v6_source(m) is Some,
    ensures
        site_ref(s, m) is None,
{
    lemma_find(m, '/');
    let t = m.take(find(m, '/'));
    if v4_source(m) is Some {
        lemma_v4_starts_with_digit(t);
    } else {
        lemma_v6_start(t);
    }
    assert(t[0] == m[0]);
}

proof fn lemma_width(m: Seq<char>, max: int)
    requires
        max >= 0,
    ensures
        width_of(m, max) matches Some(b) ==> 0 <= b <= max,
{
    lemma_find(m, '/');
    lemma_uint_bound(m.skip(find(m, '/') + 1), max);
}

/// The text of an address with a width.
pub open spec fn is_net_text(t: Seq<char>) -> bool {
    exists|o: Seq<u8>, bits: int|
        o.len() == 16 && 0 <= bits <= 128 && t == #[trigger] net_text(o, bits)
}

/// Such a text is one entry of a list.
pub proof fn lemma_net_text_is_solid(o: Seq<u8>, bits: int)
    requires
        o.len() == 16,
        bits >= 0,
    ensures
        solid(net_text(o, bits)),
{
    let head = v6_text(o);
    let tail = numeral(bits, false);
    let s = net_text(o, bits);
    law_v6_text_reads_back(o);
    lemma_numeral(bits, false);
    assert(s[head.len() as int] == '/');
    assert forall|i: int| 0 <= i < s.len() implies !is_separator(#[trigger] s[i]) by {
        if i < head.len() {
            assert(s[i] == head[i]);
            assert(is_address_char(head[i]));
        } else if i > head.len() {
            assert(s[i] == tail[i - head.len() - 1]);
            assert(is_digit(tail[i - head.len() - 1], false));
        }
    }
}

/// Whatever is encoded under a scheme encodes to an address with a width.
pub proof fn lemma_encoded_is_net(s: SchemeView, m: Seq<char>)
    requires
        s.well_formed(),
    ensures
        is_net_text(encoded(s, m)),
{
    lemma_width(m, 32);
    lemma_width(m, 128);
    lemma_v4_len(m.take(find(m, '/')));
    if let Some((q, bits)) = v4_source(m) {
        lemma_fits(mapped_octets(q));
    }
    if let Some((o, bits)) = v6_source(m) {
        lemma_fits(o);
    }
    let net = s.site_net->Some_0;
    match (site_ref(s, m), v4_source(m), v6_source(m)) {
        (Some(id), _, _) => {
            assert(site_octets(net, id, zeros(4)).len() == 16);
        },
        (None, Some((q, bits)), _) => {
            match block_site(s, be(mapped_octets(q)), 96 + bits) {
                Some(id) => {
                    lemma_owned_takes_net(s, be(mapped_octets(q)), 96 + bits);
                    assert(site_octets(net, id, zeros(4)).len() == 16);
                },
                None => {
                    assert(plain_octets(s.prefix, q).len() == 16);
                },
            }
        },
        (None, None, Some((o, bits))) => {
            match block_site(s, be(o), bits) {
                Some(id) => {
                    lemma_owned_takes_net(s, be(o), bits);
                    assert(site_octets(net, id, zeros(4)).len() == 16);
                },
                None => {
                    assert(o.len() == 16);
                },
            }
        },
        (None, None, None) => {
            match s.label_site(encode_utf8(m)) {
                Some(id) => {
                    assert(site_octets(net, id, zeros(4)).len() == 16);
                },
                None => {
                    assert(label_octets(s.prefix, sha256(encode_utf8(m)), zeros(4)).len() == 16);
                },
            }
        },
    }
}

/// Without a net for the sites, no site owns anything.
proof fn lemma_owned_takes_net(s: SchemeView, base: int, bits: int)
    requires
        block_site(s, base, bits) is Some,
        0 <= bits <= 128,
        0 <= base <= u128::MAX,
    ensures
        s.site_net is Some,
{
    lemma_block_is_range(base, bits, base);
    lemma_block_owner(s, base, bits, base, block_site(s, base, bits)->Some_0);
}

/// The same without a scheme.
pub proof fn lemma_bare_is_net(m: Seq<char>)
    ensures
        encoded_bare(m) matches Ok(t) ==> is_net_text(t),
{
    lemma_width(m, 128);
}

/// Every header that a site owns lies in the space that `!N` names.
pub proof fn law_site_refs_meet_the_wire(s: SchemeView, h: HeaderView, m: Seq<char>)
    requires
        s.well_formed(),
        h.src.len() == 16,
        site_of(s, h) is Some,
        site_ref(s, m) == Some(site_of(s, h)->Some_0.0),
    ensures
        admits(encoded(s, m), synthesized(s, h)),
{
    let (id, inner) = site_of(s, h)->Some_0;
    lemma_site_matches(s, h, id, inner);
}

/// A label written as a rule admits every header that carries it. Left out are
/// the headers that no site claims by label but one claims by source address.
pub proof fn law_labels_meet_the_wire(s: SchemeView, h: HeaderView, m: Seq<char>)
    requires
        s.well_formed(),
        h.src.len() == 16,
        h.vpce == encode_utf8(m),
        h.vpce.len() > 0,
        site_ref(s, m) is None,
        v4_source(m) is None,
        v6_source(m) is None,
        s.label_site(h.vpce) is Some || s.addr_site(mapped_src(h) as u128) is None,
    ensures
        admits(encoded(s, m), synthesized(s, h)),
{
    match s.label_site(h.vpce) {
        Some(id) => {
            lemma_site_matches(s, h, id, true);
        },
        None => {
            let base = label_octets(s.prefix, sha256(h.vpce), zeros(4));
            let addr = synthesized(s, h);
            law_net_text_reads_back(base, 96);
            assert(base.take(12) =~= addr.take(12));
            lemma_share(base, addr, 12);
            lemma_fits(addr);
        },
    }
}

/// The block that a source range covers is owned by whoever owns it address by
/// address.
proof fn lemma_block_owner(s: SchemeView, base: int, bits: int, x: int, id: u16)
    requires
        0 <= bits <= 128,
        0 <= base <= u128::MAX,
        0 <= x <= u128::MAX,
        covers(base, bits, x),
        block_site(s, base, bits) == Some(id),
    ensures
        s.addr_site(x as u128) == Some(id),
{
    lemma_block_is_range(base, bits, x);
    lemma_block_is_range(base, bits, base);
    let start = base - base % block(bits);
    let end = start + block(bits) - 1;
    lemma_block_fits(base, bits);
    assert(s.holds_all(start as u128, end as u128, id));
}

/// A block of addresses ends no later than the last address.
proof fn lemma_block_fits(base: int, bits: int)
    requires
        0 <= bits <= 128,
        0 <= base <= u128::MAX,
    ensures
        0 <= base - base % block(bits),
        base - base % block(bits) + block(bits) - 1 <= u128::MAX,
{
    let m = block(bits);
    let p = pow2(bits as nat) as int;
    lemma_pow2_pos((128 - bits) as nat);
    lemma_pow2_pos(bits as nat);
    lemma_pow2_adds((128 - bits) as nat, bits as nat);
    assert((128 - bits) as nat + bits as nat == 128nat);
    lemma_pow2_128();
    lemma_fundamental_div_mod(base, m);
    lemma_div_pos_is_pos(base, m);
    let q = base / m;
    assert(q < p) by (nonlinear_arith)
        requires
            m * q <= base,
            base < m * p,
            m > 0,
    ;
    assert(m * q + m <= m * p) by (nonlinear_arith)
        requires
            q < p,
            m > 0,
    ;
    assert(m * q >= 0) by (nonlinear_arith)
        requires
            q >= 0,
            m > 0,
    ;
}

/// An IPv4 source written as a rule admits every plain header from it. Left out
/// are headers from an address that a site owns where that site does not own the
/// whole source: no single encoding could match those.
pub proof fn law_v4_sources_meet_the_wire(
    s: SchemeView,
    h: HeaderView,
    m: Seq<char>,
    q: Seq<u8>,
    bits: int,
)
    requires
        s.well_formed(),
        h.src.len() == 16,
        h.vpce.len() == 0,
        !h.is_v6,
        v4_source(m) == Some((q, bits)),
        covers(be(mapped_octets(q)), 96 + bits, mapped_src(h)),
        block_site(s, be(mapped_octets(q)), 96 + bits) is Some || s.addr_site(
            mapped_src(h) as u128,
        ) is None,
    ensures
        admits(encoded(s, m), synthesized(s, h)),
{
    lemma_addresses_name_no_site(s, m);
    lemma_width(m, 32);
    lemma_v4_len(m.take(find(m, '/')));
    let from = four(h.src);
    lemma_fits(mapped_octets(q));
    lemma_fits(mapped_octets(from));
    match block_site(s, be(mapped_octets(q)), 96 + bits) {
        Some(id) => {
            lemma_block_owner(s, be(mapped_octets(q)), 96 + bits, mapped_src(h), id);
            lemma_site_matches(s, h, id, false);
        },
        None => {
            let rule = plain_octets(s.prefix, q);
            let addr = plain_octets(s.prefix, from);
            let high = s.prefix + be2(KIND_ADDR) + zeros(4);
            let lifted = zeros(10) + seq![0xffu8, 0xffu8];
            lemma_low_bits(lifted, q, from, bits);
            lemma_low_bits(high, q, from, bits);
            law_net_text_reads_back(rule, 96 + bits);
            lemma_fits(addr);
        },
    }
}

/// An IPv6 source written as a rule admits every plain header from it, with the
/// same exception.
pub proof fn law_v6_sources_meet_the_wire(
    s: SchemeView,
    h: HeaderView,
    m: Seq<char>,
    o: Seq<u8>,
    bits: int,
)
    requires
        s.well_formed(),
        h.src.len() == 16,
        h.vpce.len() == 0,
        h.is_v6,
        v6_source(m) == Some((o, bits)),
        covers(be(o), bits, be(h.src)),
        block_site(s, be(o), bits) is Some || s.addr_site(be(h.src) as u128) is None,
    ensures
        admits(encoded(s, m), synthesized(s, h)),
{
    lemma_addresses_name_no_site(s, m);
    if v4_source(m) is Some {
        law_v4_is_not_v6(m.take(find(m, '/')));
    }
    lemma_width(m, 128);
    lemma_fits(o);
    lemma_fits(h.src);
    match block_site(s, be(o), bits) {
        Some(id) => {
            lemma_block_owner(s, be(o), bits, be(h.src), id);
            lemma_site_matches(s, h, id, false);
        },
        None => {
            law_net_text_reads_back(o, bits);
        },
    }
}

/// The site in whose space a source lands as a rule, if it lands in one.
pub open spec fn lands_in(s: SchemeView, m: Seq<char>) -> Option<u16> {
    match (site_ref(s, m), v4_source(m), v6_source(m)) {
        (Some(id), _, _) => Some(id),
        (None, Some((q, bits)), _) => block_site(s, be(mapped_octets(q)), 96 + bits),
        (None, None, Some((o, bits))) => block_site(s, be(o), bits),
        (None, None, None) => s.label_site(encode_utf8(m)),
    }
}

/// A rule that reaches into a site's space names that site or is a source of its
/// own: nothing admits one tenant by naming another, and nothing admits the
/// quarantine space but `!0` and the contested sources themselves. Left out are
/// IPv6 sources that no site owns, which are the addresses they say.
pub proof fn law_site_space_needs_its_site(s: SchemeView, m: Seq<char>, id: u16, addr: Seq<u8>)
    requires
        s.well_formed(),
        s.site_net == Some(s.prefix + be2(KIND_SITE)),
        addr.len() == 16,
        admits(site_space(s.prefix + be2(KIND_SITE), id), addr),
        lands_in(s, m) is Some || v4_source(m) is Some || v6_source(m) is None,
        admits(encoded(s, m), addr),
    ensures
        lands_in(s, m) == Some(id),
{
    let net = s.prefix + be2(KIND_SITE);
    match lands_in(s, m) {
        Some(other) => {
            law_site_spaces_are_disjoint(net, id, other, addr);
        },
        None => {
            law_site_space_is_the_site(net, id, addr);
            lemma_fits(addr);
            let (base, bits) = match v4_source(m) {
                Some((q, bits)) => (plain_octets(s.prefix, q), 96 + bits),
                None => (label_octets(s.prefix, sha256(encode_utf8(m)), zeros(4)), 96),
            };
            lemma_width(m, 32);
            lemma_v4_len(m.take(find(m, '/')));
            law_net_text_reads_back(base, bits);
            lemma_fits(base);
            law_blocks_nest(be(base), bits, be(base), 96, be(base), be(addr));
            lemma_share(base, addr, 12);
            assert(addr.take(12)[6] == net[6] && addr.take(12)[7] == net[7]);
            assert(base.take(12)[6] == base[6] && base.take(12)[7] == base[7]);
        },
    }
}

/// Without sites every header falls to the kind of an endpoint id or to that of a
/// plain address, or is an IPv6 client's own.
pub proof fn law_without_sites_no_site_kind(s: SchemeView, h: HeaderView)
    requires
        s.well_formed(),
        s.sites.len() == 0,
        h.src.len() == 16,
    ensures
        site_of(s, h) is None,
        synthesized(s, h) == if h.vpce.len() > 0 {
            label_octets(s.prefix, sha256(h.vpce), machine_of(h))
        } else if h.is_v6 {
            h.src
        } else {
            plain_octets(s.prefix, four(h.src))
        },
{
    if s.site_net is Some {
        law_unclaimed_is_nobodys(s.sites, mapped_src(h) as u128);
    }
}

/// Everything synthesized lies in the prefix or in the sites' net; everything
/// else is a real client's own IPv6 address, passed through unchanged.
pub proof fn law_synthesized_or_real(s: SchemeView, h: HeaderView)
    requires
        s.well_formed(),
        h.src.len() == 16,
    ensures
        synthesized(s, h).len() == 16,
        site_of(s, h) is Some ==> synthesized(s, h).take(8) == s.site_net->Some_0,
        site_of(s, h) is None && (h.vpce.len() > 0 || !h.is_v6) ==> synthesized(s, h).take(6)
            == s.prefix,
        site_of(s, h) is None && h.vpce.len() == 0 && h.is_v6 ==> synthesized(s, h) == h.src,
{
    let addr = synthesized(s, h);
    if site_of(s, h) is Some {
        assert(addr.take(8) =~= s.site_net->Some_0);
    } else if h.vpce.len() > 0 || !h.is_v6 {
        assert(addr.take(6) =~= s.prefix);
    }
}

/// With the sites in the prefix's own kind, one /48 holds all that is
/// synthesized, and the kind in group 4 tells the three cases apart.
pub proof fn law_kinds_tell_apart(s: SchemeView, h: HeaderView)
    requires
        s.well_formed(),
        s.site_net == Some(s.prefix + be2(KIND_SITE)),
        h.src.len() == 16,
        site_of(s, h) is Some || h.vpce.len() > 0 || !h.is_v6,
    ensures
        synthesized(s, h).take(6) == s.prefix,
        synthesized(s, h).subrange(6, 8) == if site_of(s, h) is Some {
            be2(KIND_SITE)
        } else if h.vpce.len() > 0 {
            be2(KIND_VPCE)
        } else {
            be2(KIND_ADDR)
        },
        be2(KIND_SITE) != be2(KIND_VPCE),
        be2(KIND_SITE) != be2(KIND_ADDR),
        be2(KIND_VPCE) != be2(KIND_ADDR),
{
    let addr = synthesized(s, h);
    assert(addr.take(6) =~= s.prefix);
    assert(be2(KIND_SITE)[0] != be2(KIND_VPCE)[0]);
    assert(be2(KIND_SITE)[0] != be2(KIND_ADDR)[0]);
    assert(be2(KIND_VPCE)[1] != be2(KIND_ADDR)[1]);
    if site_of(s, h) is Some {
        assert(addr.subrange(6, 8) =~= be2(KIND_SITE));
    } else if h.vpce.len() > 0 {
        assert(addr.subrange(6, 8) =~= be2(KIND_VPCE));
    } else {
        assert(addr.subrange(6, 8) =~= be2(KIND_ADDR));
    }
}

/// A coarse rule over one kind of a prefix, a /64, holds exactly the addresses of
/// that kind: any onboarded tenant, any other tenant, or any plain IPv4 client.
pub proof fn law_kind_rules_hold_the_kind(prefix: Seq<u8>, kind: u16, addr: Seq<u8>)
    requires
        prefix.len() == 6,
        addr.len() == 16,
    ensures
        admits(net_text(prefix + be2(kind) + zeros(8), 64), addr) <==> addr.take(8) == prefix
            + be2(kind),
{
    let base = prefix + be2(kind) + zeros(8);
    law_net_text_reads_back(base, 64);
    lemma_share(base, addr, 8);
    lemma_fits(addr);
    assert(base.take(8) =~= prefix + be2(kind));
}

/// The tenant half of an address depends on the endpoint id alone, whoever the
/// client is.
pub proof fn law_tenant_half_depends_on_the_id(s: SchemeView, h: HeaderView, g: HeaderView)
    requires
        s.well_formed(),
        h.src.len() == 16,
        g.src.len() == 16,
        h.vpce == g.vpce,
        h.vpce.len() > 0,
        s.label_site(h.vpce) is Some || (site_of(s, h) is None && site_of(s, g) is None),
    ensures
        synthesized(s, h).take(12) == synthesized(s, g).take(12),
{
    assert(synthesized(s, h).take(12) =~= synthesized(s, g).take(12));
}

/// An endpoint id that a site lists decides the site, whatever the source.
pub proof fn law_endpoint_outranks_source(s: SchemeView, h: HeaderView, id: u16)
    requires
        h.vpce.len() > 0,
        s.label_site(h.vpce) == Some(id),
    ensures
        site_of(s, h) == Some((id, true)),
        synthesized(s, h) == site_octets(s.site_net->Some_0, id, machine_of(h)),
{
}

/// A site matched by source prefix carries no machine.
pub proof fn law_source_match_carries_no_machine(s: SchemeView, h: HeaderView, id: u16)
    requires
        s.well_formed(),
        site_of(s, h) == Some((id, false)),
    ensures
        synthesized(s, h).skip(12) == zeros(4),
{
    assert(synthesized(s, h).skip(12) =~= zeros(4));
}

// --- layout -------------------------------------------------------------------

/// The address of a client whose endpoint id resolves to no site, whatever sites there
/// are: the prefix, kind 1, the digest of the id, and the client's own IPv4 address, or
/// zeros where it has none.
pub proof fn law_stranger_layout(s: SchemeView, h: HeaderView)
    requires
        s.well_formed(),
        h.src.len() == 16,
        h.vpce.len() > 0,
        site_of(s, h) is None,
    ensures
        synthesized(s, h).len() == 16,
        synthesized(s, h).take(6) == s.prefix,
        synthesized(s, h)[6] == 0,
        synthesized(s, h)[7] == 1,
        forall|i: int| 8 <= i < 12 ==> #[trigger] synthesized(s, h)[i] == sha256(h.vpce)[i - 8],
        forall|i: int|
            12 <= i < 16 ==> #[trigger] synthesized(s, h)[i] == if h.is_v6 {
                0u8
            } else {
                h.src[i - 12]
            },
{
    assert(synthesized(s, h).take(6) =~= s.prefix);
}

/// The address of a client of a site: the sites' net, two zeros, the site, and the
/// client's own IPv4 address where the site was told by the endpoint id.
pub proof fn law_site_layout(s: SchemeView, h: HeaderView, id: u16, inner: bool)
    requires
        s.well_formed(),
        h.src.len() == 16,
        site_of(s, h) == Some((id, inner)),
    ensures
        synthesized(s, h).len() == 16,
        s.site_net == Some(synthesized(s, h).take(8)),
        synthesized(s, h)[8] == 0,
        synthesized(s, h)[9] == 0,
        synthesized(s, h)[10] == id / 256,
        synthesized(s, h)[11] == id % 256,
        forall|i: int|
            12 <= i < 16 ==> #[trigger] synthesized(s, h)[i] == if inner && !h.is_v6 {
                h.src[i - 12]
            } else {
                0u8
            },
{
    assert(synthesized(s, h).take(8) =~= s.site_net->Some_0);
}

/// The address of a client without an endpoint id that no site has: its own where that
/// is IPv6, and otherwise the prefix, kind 4, zeros, and its IPv4 address.
pub proof fn law_plain_layout(s: SchemeView, h: HeaderView)
    requires
        s.well_formed(),
        h.src.len() == 16,
        h.vpce.len() == 0,
        site_of(s, h) is None,
    ensures
        synthesized(s, h).len() == 16,
        h.is_v6 ==> synthesized(s, h) == h.src,
        !h.is_v6 ==> {
            &&& synthesized(s, h).take(6) == s.prefix
            &&& synthesized(s, h)[6] == 0
            &&& synthesized(s, h)[7] == 4
            &&& forall|i: int| 8 <= i < 12 ==> #[trigger] synthesized(s, h)[i] == 0
            &&& forall|i: int| 12 <= i < 16 ==> #[trigger] synthesized(s, h)[i] == h.src[i - 12]
        },
{
    if !h.is_v6 {
        assert(synthesized(s, h).take(6) =~= s.prefix);
    }
}

proof fn lemma_be_zeros(n: nat)
    ensures
        be(zeros(n)) == 0,
    decreases n,
{
    if n > 0 {
        assert(zeros(n).drop_last() =~= zeros((n - 1) as nat));
        lemma_be_zeros((n - 1) as nat);
    }
}

/// An IPv4 address counts as the number `::ffff:a.b.c.d` writes.
pub proof fn law_mapped_number(q: Seq<u8>)
    requires
        q.len() == 4,
    ensures
        be(q) == 0x100_0000 * q[0] + 0x1_0000 * q[1] + 0x100 * q[2] + q[3],
        be(mapped_octets(q)) == 0xffff_0000_0000 + be(q),
{
    reveal_with_fuel(be, 5);
    let q3 = q.drop_last();
    let q2 = q3.drop_last();
    let q1 = q2.drop_last();
    assert(q1.drop_last() =~= seq![]);
    assert(q3.last() == q[2] && q2.last() == q[1] && q1.last() == q[0]);
    let high = zeros(10) + seq![0xffu8, 0xffu8];
    lemma_be_zeros(10);
    assert(high.drop_last() =~= zeros(10).push(0xff));
    assert(high.drop_last().drop_last() =~= zeros(10));
    assert(be(high) == 65535);
    lemma_be_append(high, q);
    lemma2_to64();
    assert(mapped_octets(q) =~= high + q);
}

/// The number that a header's source counts as.
pub proof fn law_source_number(h: HeaderView)
    requires
        h.src.len() == 16,
    ensures
        mapped_src(h) == if h.is_v6 {
            be(h.src)
        } else {
            0xffff_0000_0000 + 0x100_0000 * h.src[0] + 0x1_0000 * h.src[1] + 0x100 * h.src[2]
                + h.src[3]
        },
        0 <= mapped_src(h) <= u128::MAX,
{
    law_mapped_number(four(h.src));
    lemma_fits(h.src);
}

// --- whose a header is --------------------------------------------------------

/// The site has this endpoint id among its sources.
pub open spec fn has_label(site: Site, label: Seq<u8>) -> bool {
    exists|k: int| 0 <= k < site.vpce@.len() && (#[trigger] site.vpce@[k])@ == label
}

/// The site has this address among its sources.
pub open spec fn has_address(site: Site, x: int) -> bool {
    exists|k: int|
        0 <= k < site.cidrs@.len() && (#[trigger] site.cidrs@[k]).start <= x <= site.cidrs@[k].end
}

/// A header whose endpoint id a site has is that site's, wherever it comes from. Where
/// sites with different ids have it, it goes to site 0.
pub proof fn law_endpoint_id_names_the_site(s: SchemeView, h: HeaderView, i: int)
    requires
        s.site_net is Some,
        h.vpce.len() > 0,
        0 <= i < s.sites.len(),
        has_label(s.sites[i], h.vpce),
    ensures
        (forall|j: int|
            0 <= j < s.sites.len() && has_label(#[trigger] s.sites[j], h.vpce) ==> s.sites[j].id
                == s.sites[i].id) ==> site_of(s, h) == Some((s.sites[i].id, true)),
        (exists|j: int|
            0 <= j < s.sites.len() && has_label(#[trigger] s.sites[j], h.vpce) && s.sites[j].id
                != s.sites[i].id) ==> site_of(s, h) == Some((0u16, true)),
{
    let id = s.sites[i].id;
    let p = |c: u16| lists(s.sites, h.vpce, c);
    assert forall|j: int| 0 <= j < s.sites.len() implies has_label(#[trigger] s.sites[j], h.vpce)
        == names(s.sites[j], h.vpce) by {}
    assert(lists(s.sites, h.vpce, id));
    assert(p(id));
    if exists|j: int|
        0 <= j < s.sites.len() && has_label(#[trigger] s.sites[j], h.vpce) && s.sites[j].id != id {
        let j = choose|j: int|
            0 <= j < s.sites.len() && has_label(#[trigger] s.sites[j], h.vpce) && s.sites[j].id
                != id;
        assert(lists(s.sites, h.vpce, s.sites[j].id));
        law_contested_labels_are_quarantined(s.sites, h.vpce, id, s.sites[j].id);
    } else {
        assert forall|c: u16| #[trigger] p(c) implies c == id by {
            let j = choose|j: int|
                0 <= j < s.sites.len() && (#[trigger] s.sites[j]).id == c && names(
                    s.sites[j],
                    h.vpce,
                );
            assert(has_label(s.sites[j], h.vpce));
        }
        lemma_settled_one(p, id);
    }
}

/// A header whose endpoint id no site has, or without one, is the site's that has its
/// source address, and site 0's where sites with different ids have it.
pub proof fn law_source_names_the_site(s: SchemeView, h: HeaderView, i: int)
    requires
        s.site_net is Some,
        h.src.len() == 16,
        h.vpce.len() == 0 || forall|j: int|
            0 <= j < s.sites.len() ==> !has_label(#[trigger] s.sites[j], h.vpce),
        0 <= i < s.sites.len(),
        has_address(s.sites[i], mapped_src(h)),
    ensures
        (forall|j: int|
            0 <= j < s.sites.len() && has_address(#[trigger] s.sites[j], mapped_src(h))
                ==> s.sites[j].id == s.sites[i].id) ==> site_of(s, h) == Some(
            (s.sites[i].id, false),
        ),
        (exists|j: int|
            0 <= j < s.sites.len() && has_address(#[trigger] s.sites[j], mapped_src(h))
                && s.sites[j].id != s.sites[i].id) ==> site_of(s, h) == Some((0u16, false)),
{
    lemma_unlisted(s, h);
    law_source_number(h);
    let x = mapped_src(h) as u128;
    let id = s.sites[i].id;
    assert forall|j: int| 0 <= j < s.sites.len() implies has_address(
        #[trigger] s.sites[j],
        mapped_src(h),
    ) == within(s.sites[j].cidrs@, x) by {
        lemma_within(s.sites[j], x);
    }
    assert(claims(s.sites, x, id));
    if exists|j: int|
        0 <= j < s.sites.len() && has_address(#[trigger] s.sites[j], mapped_src(h))
            && s.sites[j].id != id {
        let j = choose|j: int|
            0 <= j < s.sites.len() && has_address(#[trigger] s.sites[j], mapped_src(h))
                && s.sites[j].id != id;
        assert(claims(s.sites, x, s.sites[j].id));
        law_contested_addresses_are_quarantined(s.sites, x, id, s.sites[j].id);
    } else {
        assert forall|c: u16| #[trigger] claims(s.sites, x, c) implies c == id by {
            let j = choose|j: int|
                0 <= j < s.sites.len() && (#[trigger] s.sites[j]).id == c && within(
                    s.sites[j].cidrs@,
                    x,
                );
            assert(has_address(s.sites[j], mapped_src(h)));
        }
        law_sole_claimant_owns(s.sites, x, id);
    }
}

/// A header is no site's where none has its endpoint id or its source address, or where
/// the sites have no net.
pub proof fn law_else_no_site(s: SchemeView, h: HeaderView)
    requires
        h.src.len() == 16,
        s.site_net is None || {
            &&& h.vpce.len() == 0 || forall|j: int|
                0 <= j < s.sites.len() ==> !has_label(#[trigger] s.sites[j], h.vpce)
            &&& forall|j: int|
                0 <= j < s.sites.len() ==> !has_address(#[trigger] s.sites[j], mapped_src(h))
        },
    ensures
        site_of(s, h) is None,
{
    if s.site_net is Some {
        lemma_unlisted(s, h);
        law_source_number(h);
        let x = mapped_src(h) as u128;
        assert forall|c: u16| !#[trigger] claims(s.sites, x, c) by {
            if claims(s.sites, x, c) {
                let j = choose|j: int|
                    0 <= j < s.sites.len() && (#[trigger] s.sites[j]).id == c && within(
                        s.sites[j].cidrs@,
                        x,
                    );
                lemma_within(s.sites[j], x);
                assert(!has_address(s.sites[j], mapped_src(h)));
            }
        }
        law_unclaimed_is_nobodys(s.sites, x);
    }
}

pub proof fn lemma_within(site: Site, x: u128)
    ensures
        has_address(site, x as int) <==> within(site.cidrs@, x),
{
    if has_address(site, x as int) {
        let k = choose|k: int|
            0 <= k < site.cidrs@.len() && (#[trigger] site.cidrs@[k]).start <= x as int
                <= site.cidrs@[k].end;
        assert(site.cidrs@[k].start <= x <= site.cidrs@[k].end);
    }
    if within(site.cidrs@, x) {
        let k = choose|k: int|
            0 <= k < site.cidrs@.len() && (#[trigger] site.cidrs@[k]).start <= x
                <= site.cidrs@[k].end;
        assert(site.cidrs@[k].start <= x as int <= site.cidrs@[k].end);
    }
}

proof fn lemma_unlisted(s: SchemeView, h: HeaderView)
    requires
        h.vpce.len() == 0 || forall|j: int|
            0 <= j < s.sites.len() ==> !has_label(#[trigger] s.sites[j], h.vpce),
    ensures
        h.vpce.len() > 0 ==> s.label_site(h.vpce) is None,
{
    if h.vpce.len() > 0 {
        let p = |c: u16| lists(s.sites, h.vpce, c);
        assert forall|c: u16| !#[trigger] p(c) by {
            if lists(s.sites, h.vpce, c) {
                let j = choose|j: int|
                    0 <= j < s.sites.len() && (#[trigger] s.sites[j]).id == c && names(
                        s.sites[j],
                        h.vpce,
                    );
                assert(has_label(s.sites[j], h.vpce));
            }
        }
    }
}

// --- what a source admits as a rule -------------------------------------------

/// The address is one of the site's, in this net.
pub open spec fn in_site(addr: Seq<u8>, net: Seq<u8>, id: u16) -> bool {
    &&& addr.take(8) == net
    &&& addr[8] == 0
    &&& addr[9] == 0
    &&& addr[10] == id / 256
    &&& addr[11] == id % 256
}

proof fn lemma_in_site(net: Seq<u8>, id: u16, addr: Seq<u8>)
    requires
        net.len() == 8,
        addr.len() == 16,
    ensures
        admits(site_space(net, id), addr) <==> in_site(addr, net, id),
{
    law_site_space_is_the_site(net, id, addr);
    let want = net + zeros(2) + be2(id);
    let got = addr.take(12);
    if got == want {
        assert(addr.take(8) =~= want.take(8));
        assert(want.take(8) =~= net);
        assert(got[8] == want[8] && got[9] == want[9] && got[10] == want[10] && got[11]
            == want[11]);
    }
    if in_site(addr, net, id) {
        assert forall|i: int| 0 <= i < 12 implies got[i] == want[i] by {
            if i < 8 {
                assert(addr.take(8)[i] == net[i]);
            }
        }
        assert(got =~= want);
    }
}

/// `!` and the number of a declared site, or of site 0, names that site and admits its
/// addresses, all of them and no others.
pub proof fn law_site_numbers_name_their_sites(s: SchemeView, n: u16, i: int, addr: Seq<u8>)
    requires
        s.well_formed(),
        s.site_net is Some,
        n == 0 || (0 <= i < s.sites.len() && s.sites[i].id == n),
        addr.len() == 16,
    ensures
        site_ref(s, seq!['!'] + numeral(n as int, false)) == Some(n),
        admits(encoded(s, seq!['!'] + numeral(n as int, false)), addr) <==> in_site(
            addr,
            s.site_net->Some_0,
            n,
        ),
{
    let m = seq!['!'] + numeral(n as int, false);
    assert(m.skip(1) =~= numeral(n as int, false));
    lemma_uint_of_numeral(n as int, u16::MAX as int);
    assert(n == 0 || s.declares(n));
    lemma_in_site(s.site_net->Some_0, n, addr);
}

/// The same however the number is written.
pub proof fn law_site_numbers_may_be_written_otherwise(s: SchemeView, t: Seq<char>, n: u16)
    requires
        uint(t, 65535) == Some(n as int),
    ensures
        site_ref(s, seq!['!'] + t) == site_ref(s, seq!['!'] + numeral(n as int, false)),
        encoded(s, seq!['!'] + t) == encoded(s, seq!['!'] + numeral(n as int, false)) || site_ref(
            s,
            seq!['!'] + t,
        ) is None,
{
    let m = seq!['!'] + numeral(n as int, false);
    assert(m.skip(1) =~= numeral(n as int, false));
    assert((seq!['!'] + t).skip(1) =~= t);
    lemma_uint_of_numeral(n as int, u16::MAX as int);
}

/// `!` names no site that was not declared, save site 0, and none at all where the
/// sites have no net. What it does not name is a label.
pub proof fn law_other_numbers_name_no_site(s: SchemeView, m: Seq<char>)
    requires
        m.len() > 0,
        m[0] == '!',
        s.site_net is None || match uint(m.skip(1), 65535) {
            Some(n) => n != 0 && forall|i: int|
                0 <= i < s.sites.len() ==> (#[trigger] s.sites[i]).id != n,
            None => true,
        },
    ensures
        site_ref(s, m) is None,
        v4_source(m) is None,
        v6_source(m) is None,
{
    lemma_find(m, '/');
    lemma_uint_bound(m.skip(1), 65535);
    let t = m.take(find(m, '/'));
    if v4_source(m) is Some {
        lemma_v4_starts_with_digit(t);
        assert(t[0] == m[0]);
    }
    if v6_source(m) is Some {
        lemma_v6_start(t);
        assert(t[0] == m[0]);
    }
}

/// An address text with nothing or a width behind it.
pub proof fn lemma_source_text(head: Seq<char>, bits: int)
    requires
        all_address_chars(head),
        bits >= 0,
    ensures
        find(head, '/') == head.len(),
        head.take(head.len() as int) == head,
        find(head.push('/') + numeral(bits, false), '/') == head.len(),
        (head.push('/') + numeral(bits, false)).len() > head.len(),
        (head.push('/') + numeral(bits, false)).take(head.len() as int) == head,
        (head.push('/') + numeral(bits, false)).skip(head.len() as int + 1) == numeral(
            bits,
            false,
        ),
{
    let s = head.push('/') + numeral(bits, false);
    assert forall|i: int| 0 <= i < head.len() implies head[i] != '/' by {
        assert(is_address_char(head[i]));
    }
    lemma_find_is(head, '/', head.len() as int);
    assert(head.take(head.len() as int) =~= head);
    assert forall|i: int| 0 <= i < head.len() implies s[i] != '/' by {
        assert(s[i] == head[i]);
    }
    assert(s[head.len() as int] == '/');
    lemma_find_is(s, '/', head.len() as int);
    assert(s.take(head.len() as int) =~= head);
    assert(s.skip(head.len() as int + 1) =~= numeral(bits, false));
}

/// The text of an address with its width, which may be left out where it is `whole`.
pub open spec fn is_source(m: Seq<char>, head: Seq<char>, bits: int, whole: int) -> bool {
    ||| m == head.push('/') + numeral(bits, false)
    ||| m == head && bits == whole
}

proof fn lemma_v4_source(m: Seq<char>, q: Seq<u8>, bits: int)
    requires
        q.len() == 4,
        0 <= bits <= 32,
        is_source(m, v4_text(q), bits, 32),
    ensures
        v4_source(m) == Some((q, bits)),
{
    law_v4_text_reads_back(q);
    lemma_source_text(v4_text(q), bits);
    lemma_uint_of_numeral(bits, 32);
}

proof fn lemma_v6_source(m: Seq<char>, o: Seq<u8>, bits: int)
    requires
        o.len() == 16,
        0 <= bits <= 128,
        is_source(m, v6_text(o), bits, 128),
    ensures
        v6_source(m) == Some((o, bits)),
        v4_source(m) is None,
{
    law_v6_text_reads_back(o);
    lemma_source_text(v6_text(o), bits);
    lemma_uint_of_numeral(bits, 128);
    if v4(v6_text(o)) is Some {
        law_v4_is_not_v6(v6_text(o));
    }
}

/// A source is an address alone, which is that one address, or an address, a slash and a
/// width that its family has.
pub proof fn law_sources_are_addresses_with_widths(head: Seq<char>, tail: Seq<char>)
    requires
        forall|i: int| 0 <= i < head.len() ==> #[trigger] head[i] != '/',
    ensures
        v4_source(head) == match v4(head) {
            Some(q) => Some((q, 32int)),
            None => None,
        },
        v6_source(head) == match v6(head) {
            Some(o) => Some((o, 128int)),
            None => None,
        },
        v4_source(head + seq!['/'] + tail) == match (v4(head), uint(tail, 32)) {
            (Some(q), Some(w)) => Some((q, w)),
            _ => None,
        },
        v6_source(head + seq!['/'] + tail) == match (v6(head), uint(tail, 128)) {
            (Some(o), Some(w)) => Some((o, w)),
            _ => None,
        },
{
    lemma_find_is(head, '/', head.len() as int);
    assert(head.take(head.len() as int) =~= head);
    let s = head + seq!['/'] + tail;
    assert forall|i: int| 0 <= i < head.len() implies s[i] != '/' by {
        assert(s[i] == head[i]);
    }
    assert(s[head.len() as int] == '/');
    lemma_find_is(s, '/', head.len() as int);
    assert(s.take(head.len() as int) =~= head);
    assert(s.skip(head.len() as int + 1) =~= tail);
}

/// The texts of addresses, with widths in decimal, are sources.
pub proof fn law_written_sources_are_read(m: Seq<char>, o: Seq<u8>, q: Seq<u8>, bits: int)
    requires
        o.len() == 16,
        q.len() == 4,
    ensures
        0 <= bits <= 32 && is_source(m, v4_text(q), bits, 32) ==> v4_source(m) == Some((q, bits)),
        0 <= bits <= 128 && is_source(m, v6_text(o), bits, 128) ==> v6_source(m) == Some((o, bits))
            && v4_source(m) is None,
{
    if 0 <= bits <= 32 && is_source(m, v4_text(q), bits, 32) {
        lemma_v4_source(m, q, bits);
    }
    if 0 <= bits <= 128 && is_source(m, v6_text(o), bits, 128) {
        lemma_v6_source(m, o, bits);
    }
}

proof fn lemma_v4_source_fits(m: Seq<char>)
    ensures
        v4_source(m) matches Some((q, bits)) ==> q.len() == 4 && 0 <= bits <= 32,
{
    lemma_width(m, 32);
    lemma_v4_len(m.take(find(m, '/')));
}

proof fn lemma_v6_source_fits(m: Seq<char>)
    ensures
        v6_source(m) matches Some((o, bits)) ==> o.len() == 16 && 0 <= bits <= 128 && v4_source(
            m,
        ) is None,
{
    lemma_width(m, 128);
    if v4(m.take(find(m, '/'))) is Some {
        law_v4_is_not_v6(m.take(find(m, '/')));
    }
}

/// What a source encodes to is written as an address, a slash and a width in decimal; a
/// site's space as its net, two zeros, the site and zeros, and `/96`.
pub proof fn law_encoded_text_is_address_and_width(o: Seq<u8>, bits: int, net: Seq<u8>, id: u16)
    requires
        net.len() == 8,
    ensures
        net_text(o, bits) == v6_text(o) + seq!['/'] + numeral(bits, false),
        site_space(net, id) == v6_text(
            net + seq![0u8, 0u8, (id / 256) as u8, (id % 256) as u8, 0u8, 0u8, 0u8, 0u8],
        ) + seq!['/', '9', '6'],
{
    assert(net_text(o, bits) =~= v6_text(o) + seq!['/'] + numeral(bits, false));
    let base = net + seq![0u8, 0u8, (id / 256) as u8, (id % 256) as u8, 0u8, 0u8, 0u8, 0u8];
    assert(site_octets(net, id, zeros(4)) =~= base);
    lemma_two_digits(9, 6);
    assert(site_space(net, id) =~= v6_text(base) + seq!['/', '9', '6']);
}

/// One site owns the whole block.
proof fn lemma_whole_block(s: SchemeView, base: int, bits: int, id: u16)
    requires
        0 <= bits <= 128,
        0 <= base <= u128::MAX,
        forall|x: u128|
            covers(base, bits, x as int) ==> #[trigger] s.addr_site(x) == Some(id),
    ensures
        block_site(s, base, bits) == Some(id),
        s.site_net is Some,
{
    let start = base - base % block(bits);
    let end = start + block(bits) - 1;
    lemma_block_fits(base, bits);
    lemma_block_is_range(base, bits, base);
    assert forall|x: u128| start as u128 <= x <= end as u128 implies #[trigger] s.addr_site(x)
        == Some(id) by {
        lemma_block_is_range(base, bits, x as int);
    }
    assert(s.holds_all(start as u128, end as u128, id));
    let other = block_site(s, base, bits)->Some_0;
    assert(s.holds_all(start as u128, end as u128, other));
    assert(s.addr_site(base as u128) == Some(id));
    assert(s.addr_site(base as u128) == Some(other));
}

/// No site owns the whole block.
proof fn lemma_mixed_block(s: SchemeView, base: int, bits: int, x: u128, y: u128)
    requires
        0 <= bits <= 128,
        0 <= base <= u128::MAX,
        covers(base, bits, x as int),
        covers(base, bits, y as int),
        s.addr_site(x) is None || s.addr_site(x) != s.addr_site(y),
    ensures
        block_site(s, base, bits) is None,
{
    if let Some(id) = block_site(s, base, bits) {
        lemma_block_owner(s, base, bits, x as int, id);
        lemma_block_owner(s, base, bits, y as int, id);
    }
}

/// An IPv4 source that one site owns whole admits that site's addresses.
pub proof fn law_owned_v4_rule_is_the_site(
    s: SchemeView,
    m: Seq<char>,
    q: Seq<u8>,
    bits: int,
    id: u16,
    addr: Seq<u8>,
)
    requires
        s.well_formed(),
        v4_source(m) == Some((q, bits)),
        forall|x: u128|
            covers(0xffff_0000_0000 + be(q), 96 + bits, x as int) ==> #[trigger] s.addr_site(x)
                == Some(id),
        addr.len() == 16,
    ensures
        s.site_net is Some,
        admits(encoded(s, m), addr) <==> in_site(addr, s.site_net->Some_0, id),
{
    lemma_v4_source_fits(m);
    lemma_addresses_name_no_site(s, m);
    law_mapped_number(q);
    lemma_fits(mapped_octets(q));
    lemma_whole_block(s, be(mapped_octets(q)), 96 + bits, id);
    lemma_in_site(s.site_net->Some_0, id, addr);
}

/// An IPv4 source that no site owns whole admits the plain clients in it: the prefix,
/// kind 4, zeros, and an IPv4 address in the source's block.
pub proof fn law_free_v4_rule_is_its_block(
    s: SchemeView,
    m: Seq<char>,
    q: Seq<u8>,
    bits: int,
    x: u128,
    y: u128,
    addr: Seq<u8>,
)
    requires
        s.well_formed(),
        v4_source(m) == Some((q, bits)),
        covers(0xffff_0000_0000 + be(q), 96 + bits, x as int),
        covers(0xffff_0000_0000 + be(q), 96 + bits, y as int),
        s.addr_site(x) is None || s.addr_site(x) != s.addr_site(y),
        addr.len() == 16,
    ensures
        admits(encoded(s, m), addr) <==> {
            &&& addr.take(6) == s.prefix
            &&& addr[6] == 0
            &&& addr[7] == 4
            &&& forall|i: int| 8 <= i < 12 ==> #[trigger] addr[i] == 0
            &&& be(q) / pow2((32 - bits) as nat) as int == be(addr.skip(12)) / pow2(
                (32 - bits) as nat,
            ) as int
        },
{
    lemma_v4_source_fits(m);
    lemma_addresses_name_no_site(s, m);
    law_mapped_number(q);
    lemma_fits(mapped_octets(q));
    lemma_mixed_block(s, be(mapped_octets(q)), 96 + bits, x, y);
    let high = s.prefix + be2(KIND_ADDR) + zeros(4);
    let rule = plain_octets(s.prefix, q);
    let low = addr.skip(12);
    law_net_text_reads_back(rule, 96 + bits);
    lemma_fits(addr);
    lemma_fits(rule);
    assert(rule =~= high + q);
    assert(addr =~= addr.take(12) + low);
    let shaped = addr.take(6) == s.prefix && addr[6] == 0 && addr[7] == 4 && forall|i: int|
        8 <= i < 12 ==> #[trigger] addr[i] == 0;
    if shaped {
        assert forall|i: int| 0 <= i < 12 implies addr.take(12)[i] == high[i] by {
            if i < 6 {
                assert(addr.take(6)[i] == s.prefix[i]);
            }
        }
        assert(addr.take(12) =~= high);
    }
    if addr.take(12) == high {
        lemma_low_bits(high, q, low, bits);
        assert(addr.take(6) =~= high.take(6));
        assert(high.take(6) =~= s.prefix);
        assert forall|i: int| 6 <= i < 12 implies #[trigger] addr[i] == high[i] by {
            assert(addr.take(12)[i] == addr[i]);
        }
    }
    if admits(encoded(s, m), addr) {
        law_blocks_nest(be(rule), 96 + bits, be(rule), 96, be(rule), be(addr));
        lemma_share(rule, addr, 12);
        assert(rule.take(12) =~= high);
    }
}

/// An IPv6 source that one site owns whole admits that site's addresses.
pub proof fn law_owned_v6_rule_is_the_site(
    s: SchemeView,
    m: Seq<char>,
    o: Seq<u8>,
    bits: int,
    id: u16,
    addr: Seq<u8>,
)
    requires
        s.well_formed(),
        v6_source(m) == Some((o, bits)),
        forall|x: u128|
            covers(be(o), bits, x as int) ==> #[trigger] s.addr_site(x) == Some(id),
        addr.len() == 16,
    ensures
        s.site_net is Some,
        admits(encoded(s, m), addr) <==> in_site(addr, s.site_net->Some_0, id),
{
    lemma_v6_source_fits(m);
    lemma_addresses_name_no_site(s, m);
    lemma_fits(o);
    lemma_whole_block(s, be(o), bits, id);
    lemma_in_site(s.site_net->Some_0, id, addr);
}

/// An IPv6 source that no site owns whole admits the addresses of its own block, under a
/// scheme and without one.
pub proof fn law_free_v6_rule_is_its_block(
    s: SchemeView,
    m: Seq<char>,
    o: Seq<u8>,
    bits: int,
    x: u128,
    y: u128,
    addr: Seq<u8>,
)
    requires
        s.well_formed(),
        v6_source(m) == Some((o, bits)),
        covers(be(o), bits, x as int),
        covers(be(o), bits, y as int),
        s.addr_site(x) is None || s.addr_site(x) != s.addr_site(y),
        addr.len() == 16,
    ensures
        admits(encoded(s, m), addr) <==> covers(be(o), bits, be(addr)),
        encoded_bare(m) matches Ok(rule) && (admits(rule, addr) <==> covers(
            be(o),
            bits,
            be(addr),
        )),
{
    lemma_v6_source_fits(m);
    lemma_addresses_name_no_site(s, m);
    lemma_fits(o);
    lemma_fits(addr);
    lemma_mixed_block(s, be(o), bits, x, y);
    law_net_text_reads_back(o, bits);
}

/// A text that is no address and names no site is a label. It admits the addresses of the
/// site that has it, or else those that carry its digest; without a scheme it has nothing
/// to admit.
pub proof fn law_label_rule_is_its_holders(s: SchemeView, m: Seq<char>, addr: Seq<u8>)
    requires
        s.well_formed(),
        site_ref(s, m) is None,
        v4_source(m) is None,
        v6_source(m) is None,
        addr.len() == 16,
    ensures
        match s.label_site(encode_utf8(m)) {
            Some(id) => s.site_net is Some && (admits(encoded(s, m), addr) <==> in_site(
                addr,
                s.site_net->Some_0,
                id,
            )),
            None => admits(encoded(s, m), addr) <==> {
                &&& addr.take(6) == s.prefix
                &&& addr[6] == 0
                &&& addr[7] == 1
                &&& forall|i: int| 8 <= i < 12 ==> #[trigger] addr[i] == sha256(encode_utf8(m))[i - 8]
            },
        },
        encoded_bare(m) == Err::<Seq<char>, Seq<char>>(quoted(m) + " needs `ula` to encode"@),
{
    match s.label_site(encode_utf8(m)) {
        Some(id) => {
            lemma_in_site(s.site_net->Some_0, id, addr);
        },
        None => {
            let base = label_octets(s.prefix, sha256(encode_utf8(m)), zeros(4));
            law_net_text_reads_back(base, 96);
            lemma_share(base, addr, 12);
            lemma_fits(addr);
            let want = base.take(12);
            let got = addr.take(12);
            if got == want {
                assert(addr.take(6) =~= want.take(6));
                assert(want.take(6) =~= s.prefix);
                assert forall|i: int| 6 <= i < 12 implies #[trigger] addr[i] == base[i] by {
                    assert(got[i] == want[i]);
                }
            }
            if addr.take(6) == s.prefix && addr[6] == 0 && addr[7] == 1 && forall|i: int|
                8 <= i < 12 ==> #[trigger] addr[i] == sha256(encode_utf8(m))[i - 8] {
                assert forall|i: int| 0 <= i < 12 implies got[i] == want[i] by {
                    if i < 6 {
                        assert(addr.take(6)[i] == s.prefix[i]);
                    } else if i >= 8 {
                        assert(addr[i] == sha256(encode_utf8(m))[i - 8]);
                    }
                }
                assert(got =~= want);
            }
        },
    }
}

/// An IPv4 source has nothing to admit without a scheme.
pub proof fn law_v4_needs_a_scheme(m: Seq<char>)
    requires
        v4_source(m) is Some,
    ensures
        encoded_bare(m) == Err::<Seq<char>, Seq<char>>(quoted(m) + " needs `ula` to encode"@),
{
}

// --- what a width means -------------------------------------------------------

proof fn lemma_cut(a: Seq<u8>, n: int, r: int)
    requires
        a.len() == 16,
        0 <= n < 16,
        0 <= r < 8,
    ensures
        be(a) / block(8 * n + r) == be(a.take(n)) * (pow2(r as nat) as int) + a[n] as int / pow2(
            (8 - r) as nat,
        ) as int,
        0 <= a[n] as int / pow2((8 - r) as nat) as int,
        a[n] as int / pow2((8 - r) as nat) as int <= pow2(r as nat) - 1,
{
    let p = pow2((8 * (15 - n)) as nat) as int;
    let q = pow2((8 - r) as nat) as int;
    let w = pow2(r as nat) as int;
    let rest = a.skip(n + 1);
    let front = a.take(n + 1);
    lemma_pow2_pos((8 * (15 - n)) as nat);
    lemma_pow2_pos((8 - r) as nat);
    lemma_pow2_pos(r as nat);
    lemma_pow2_adds((8 * (15 - n)) as nat, (8 - r) as nat);
    assert((8 * (15 - n)) as nat + (8 - r) as nat == (128 - (8 * n + r)) as nat);
    lemma_pow2_adds((8 - r) as nat, r as nat);
    assert((8 - r) as nat + r as nat == 8nat);
    lemma2_to64();
    assert(q * w == 256);
    assert(a =~= front + rest);
    assert(8 * rest.len() == (8 * (15 - n)) as nat);
    lemma_be_append(front, rest);
    lemma_be_bound(rest);
    lemma_be_bound(a);
    lemma_shifted(be(front), be(rest), p);
    assert(be(front) * p == p * be(front)) by (nonlinear_arith);
    lemma_basic_div(be(rest), p);
    assert(be(a) / p == be(front));
    lemma_div_denominator(be(a), p, q);
    assert(be(a) / block(8 * n + r) == be(front) / q);
    assert(front.drop_last() =~= a.take(n));
    assert(front.last() == a[n]);
    assert(256 * be(a.take(n)) == q * (be(a.take(n)) * w)) by (nonlinear_arith)
        requires
            q * w == 256,
    ;
    lemma_shifted(be(a.take(n)) * w, a[n] as int, q);
    lemma_div_pos_is_pos(a[n] as int, q);
    lemma_fundamental_div_mod(a[n] as int, q);
    let d = a[n] as int / q;
    assert(d < w) by (nonlinear_arith)
        requires
            q * d <= a[n] as int,
            (a[n] as int) < 256,
            q * w == 256,
            q > 0,
    ;
}

/// A block of so many bits holds the addresses that agree with it on its whole octets
/// and on the leading bits of the next.
pub proof fn law_blocks_agree_on_leading_bits(a: Seq<u8>, b: Seq<u8>, n: int, r: int)
    requires
        a.len() == 16,
        b.len() == 16,
        0 <= n < 16,
        0 <= r < 8,
    ensures
        covers(be(a), 8 * n + r, be(b)) <==> a.take(n) == b.take(n) && a[n] as int / pow2(
            (8 - r) as nat,
        ) as int == b[n] as int / pow2((8 - r) as nat) as int,
        covers(be(a), 128, be(b)) <==> a == b,
{
    lemma_cut(a, n, r);
    lemma_cut(b, n, r);
    let w = pow2(r as nat) as int;
    let (u, v) = (be(a.take(n)), a[n] as int / pow2((8 - r) as nat) as int);
    let (s, t) = (be(b.take(n)), b[n] as int / pow2((8 - r) as nat) as int);
    lemma_pow2_pos(r as nat);
    if u * w + v == s * w + t {
        lemma_fundamental_div_mod_converse(u * w + v, w, u, v);
        lemma_fundamental_div_mod_converse(s * w + t, w, s, t);
        law_be_is_injective(a.take(n), b.take(n));
    }
    lemma_share(a, b, 16);
    assert(a.take(16) =~= a);
    assert(b.take(16) =~= b);
}

/// A list of addresses with widths is read as those blocks.
pub proof fn law_written_blocks_are_read(os: Seq<Seq<u8>>, ws: Seq<int>, words: Seq<Seq<char>>)
    requires
        os.len() == words.len(),
        ws.len() == words.len(),
        forall|i: int|
            0 <= i < words.len() ==> (#[trigger] os[i]).len() == 16 && 0 <= ws[i] <= 128 && words[i]
                == v6_text(os[i]).push('/') + numeral(ws[i], false),
    ensures
        entries_of(words) == words,
        blocks(words) matches Ok(bs) && bs.len() == words.len() && forall|i: int|
            0 <= i < words.len() ==> (#[trigger] bs[i]).base == be(os[i]) && bs[i].bits == ws[i],
{
    assert forall|i: int| 0 <= i < words.len() implies solid(#[trigger] words[i]) && cidr(words[i])
        == Ok::<Block, Seq<char>>(Block { base: be(os[i]), bits: ws[i] }) by {
        let o = os[i];
        lemma_net_text_is_solid(o, ws[i]);
        law_net_text_reads_back(o, ws[i]);
    }
    lemma_solid_entries(words);
    law_blocks_are_read_one_by_one(words);
    match blocks(words) {
        Ok(bs) => {
            assert forall|i: int| 0 <= i < words.len() implies (#[trigger] bs[i]).base == be(os[i])
                && bs[i].bits == ws[i] by {
                assert(cidr(words[i]) == Ok::<Block, Seq<char>>(bs[i]));
            }
        },
        Err(e) => {
            let i = choose|i: int|
                0 <= i < words.len() && cidr(#[trigger] words[i]) == Err::<Block, Seq<char>>(e);
            assert(solid(words[i]));
        },
    }
}

// --- the prefix that a scheme is given ----------------------------------------

/// A unique-local /48, written with its width or without, is read as its leading octets.
pub proof fn law_prefixes_are_read(o: Seq<u8>)
    requires
        o.len() == 16,
        o[0] == 0xfc || o[0] == 0xfd,
        forall|i: int| 6 <= i < 16 ==> #[trigger] o[i] == 0,
    ensures
        prefix_of(v6_text(o)) == Ok::<Seq<u8>, Seq<char>>(o.take(6)),
        prefix_of(v6_text(o) + seq!['/', '4', '8']) == Ok::<Seq<u8>, Seq<char>>(o.take(6)),
{
    let head = v6_text(o);
    let wide = head + seq!['/', '4', '8'];
    law_v6_text_reads_back(o);
    assert(wide =~= head.push('/') + numeral(48, false)) by {
        lemma_two_digits(4, 8);
    }
    lemma_source_text(head, 48);
    lemma_uint_of_numeral(48, 255);
    assert(find(wide, '/') == head.len());
    assert(wide.take(head.len() as int) == head);
    assert(wide.skip(head.len() as int + 1) == numeral(48, false));
}

/// The same of a /64 for the sites.
pub proof fn law_via_prefixes_are_read(o: Seq<u8>)
    requires
        o.len() == 16,
        o[0] == 0xfc || o[0] == 0xfd,
        forall|i: int| 8 <= i < 16 ==> #[trigger] o[i] == 0,
    ensures
        via_prefix_of(v6_text(o)) == Ok::<Seq<u8>, Seq<char>>(o.take(8)),
        via_prefix_of(v6_text(o) + seq!['/', '6', '4']) == Ok::<Seq<u8>, Seq<char>>(o.take(8)),
{
    let head = v6_text(o);
    let wide = head + seq!['/', '6', '4'];
    law_v6_text_reads_back(o);
    assert(wide =~= head.push('/') + numeral(64, false)) by {
        lemma_two_digits(6, 4);
    }
    lemma_source_text(head, 64);
    lemma_uint_of_numeral(64, 255);
    assert(find(wide, '/') == head.len());
    assert(wide.take(head.len() as int) == head);
    assert(wide.skip(head.len() as int + 1) == numeral(64, false));
}

proof fn lemma_two_digits(a: int, b: int)
    requires
        1 <= a <= 9,
        0 <= b <= 9,
    ensures
        numeral(10 * a + b, false) == seq![('0' as int + a) as char, ('0' as int + b) as char],
{
    assert((10 * a + b) / 10 == a && (10 * a + b) % 10 == b);
    assert(numeral(a, false) =~= seq![('0' as int + a) as char]);
    assert(numeral(10 * a + b, false) =~= seq![
        ('0' as int + a) as char,
        ('0' as int + b) as char,
    ]);
}

/// Whatever is read as a prefix is unique-local, of the right width, and has nothing
/// below it.
pub proof fn law_only_prefixes_are_read(head: Seq<char>, tail: Seq<char>)
    requires
        forall|i: int| 0 <= i < head.len() ==> #[trigger] head[i] != '/',
    ensures
        prefix_of(head) matches Ok(p) ==> {
            &&& v6(head) matches Some(o)
            &&& p == o.take(6)
            &&& o[0] == 0xfc || o[0] == 0xfd
            &&& forall|i: int| 6 <= i < 16 ==> #[trigger] o[i] == 0
        },
        via_prefix_of(head) matches Ok(p) ==> {
            &&& v6(head) matches Some(o)
            &&& p == o.take(8)
            &&& o[0] == 0xfc || o[0] == 0xfd
            &&& forall|i: int| 8 <= i < 16 ==> #[trigger] o[i] == 0
        },
        uint(tail, 255) == Some(48int) ==> prefix_of(head.push('/') + tail) == prefix_of(head),
        uint(tail, 255) != Some(48int) ==> prefix_of(head.push('/') + tail) is Err,
        uint(tail, 255) == Some(64int) ==> via_prefix_of(head.push('/') + tail) == via_prefix_of(
            head,
        ),
        uint(tail, 255) != Some(64int) ==> via_prefix_of(head.push('/') + tail) is Err,
{
    lemma_find_is(head, '/', head.len() as int);
    assert(head.take(head.len() as int) =~= head);
    let s = head.push('/') + tail;
    assert forall|i: int| 0 <= i < head.len() implies s[i] != '/' by {
        assert(s[i] == head[i]);
    }
    assert(s[head.len() as int] == '/');
    lemma_find_is(s, '/', head.len() as int);
    assert(s.take(head.len() as int) =~= head);
    assert(s.skip(head.len() as int + 1) =~= tail);
}

/// Why a prefix is refused, the first reason that there is.
pub proof fn law_refused_prefixes_say_why(head: Seq<char>, tail: Seq<char>)
    requires
        forall|i: int| 0 <= i < head.len() ==> #[trigger] head[i] != '/',
    ensures
        uint(tail, 255) is None ==> prefix_of(head.push('/') + tail) == Err::<Seq<u8>, Seq<char>>(
            "bad prefix length"@,
        ) && via_prefix_of(head.push('/') + tail) == Err::<Seq<u8>, Seq<char>>(
            "bad prefix length"@,
        ),
        v6(head) is None ==> prefix_of(head) == Err::<Seq<u8>, Seq<char>>("bad IPv6 address"@)
            && via_prefix_of(head) == Err::<Seq<u8>, Seq<char>>("bad IPv6 address"@),
        uint(tail, 255) is Some && uint(tail, 255) != Some(48int) && v6(head) is Some ==> prefix_of(
            head.push('/') + tail,
        ) == Err::<Seq<u8>, Seq<char>>("prefix must be /48"@),
        uint(tail, 255) is Some && uint(tail, 255) != Some(64int) && v6(head) is Some
            ==> via_prefix_of(head.push('/') + tail) == Err::<Seq<u8>, Seq<char>>(
            "via prefix must be /64"@,
        ),
        v6(head) matches Some(o) ==> {
            &&& o[0] != 0xfc && o[0] != 0xfd ==> prefix_of(head) == Err::<Seq<u8>, Seq<char>>(
                "not unique-local"@,
            ) && via_prefix_of(head) == Err::<Seq<u8>, Seq<char>>("not unique-local"@)
            &&& (o[0] == 0xfc || o[0] == 0xfd) && (exists|i: int| 6 <= i < 16 && #[trigger] o[i] != 0)
                ==> prefix_of(head) == Err::<Seq<u8>, Seq<char>>("prefix has bits set below /48"@)
            &&& (o[0] == 0xfc || o[0] == 0xfd) && (exists|i: int| 8 <= i < 16 && #[trigger] o[i] != 0)
                ==> via_prefix_of(head) == Err::<Seq<u8>, Seq<char>>(
                "via prefix has bits set below /64"@,
            )
        },
{
    lemma_find_is(head, '/', head.len() as int);
    assert(head.take(head.len() as int) =~= head);
    let s = head.push('/') + tail;
    assert forall|i: int| 0 <= i < head.len() implies s[i] != '/' by {
        assert(s[i] == head[i]);
    }
    assert(s[head.len() as int] == '/');
    lemma_find_is(s, '/', head.len() as int);
    assert(s.take(head.len() as int) =~= head);
    assert(s.skip(head.len() as int + 1) =~= tail);
}

// --- owners and contests ------------------------------------------------------

/// Octet by octet, how the addresses of machines are laid out.
pub proof fn law_addresses_are_laid_out(
    net: Seq<u8>,
    id: u16,
    prefix: Seq<u8>,
    digest: Seq<u8>,
    machine: Seq<u8>,
)
    requires
        net.len() == 8,
        prefix.len() == 6,
        digest.len() >= 4,
        machine.len() == 4,
    ensures
        site_octets(net, id, machine) == net + seq![
            0u8,
            0u8,
            (id / 256) as u8,
            (id % 256) as u8,
        ] + machine,
        label_octets(prefix, digest, machine) == prefix + seq![0u8, 1u8] + digest.take(4) + machine,
        plain_octets(prefix, machine) == prefix + seq![0u8, 4u8, 0u8, 0u8, 0u8, 0u8] + machine,
        mapped_octets(machine) == seq![
            0u8,
            0u8,
            0u8,
            0u8,
            0u8,
            0u8,
            0u8,
            0u8,
            0u8,
            0u8,
            0xffu8,
            0xffu8,
        ] + machine,
{
    assert(four(digest) =~= digest.take(4));
    assert(site_octets(net, id, machine) =~= net + seq![
        0u8,
        0u8,
        (id / 256) as u8,
        (id % 256) as u8,
    ] + machine);
    assert(label_octets(prefix, digest, machine) =~= prefix + seq![0u8, 1u8] + digest.take(4)
        + machine);
    assert(plain_octets(prefix, machine) =~= prefix + seq![0u8, 4u8, 0u8, 0u8, 0u8, 0u8]
        + machine);
    assert(mapped_octets(machine) =~= seq![
        0u8,
        0u8,
        0u8,
        0u8,
        0u8,
        0u8,
        0u8,
        0u8,
        0u8,
        0u8,
        0xffu8,
        0xffu8,
    ] + machine);
}

/// An id claims an address, or lists a label, exactly where a site of that id has it.
pub proof fn law_claims_are_of_sites(sites: Seq<Site>, x: u128, label: Seq<u8>, id: u16)
    ensures
        claims(sites, x, id) <==> exists|i: int|
            0 <= i < sites.len() && (#[trigger] sites[i]).id == id && has_address(
                sites[i],
                x as int,
            ),
        lists(sites, label, id) <==> exists|i: int|
            0 <= i < sites.len() && (#[trigger] sites[i]).id == id && has_label(sites[i], label),
{
    assert forall|i: int| 0 <= i < sites.len() implies has_address(#[trigger] sites[i], x as int)
        == within(sites[i].cidrs@, x) && has_label(sites[i], label) == names(sites[i], label) by {
        lemma_within(sites[i], x);
    }
}

/// One site owns a range exactly where it owns every address of it.
pub proof fn law_range_owner_owns_every_address(s: SchemeView, start: u128, end: u128, id: u16)
    requires
        start <= end,
    ensures
        s.range_site(start, end) == Some(id) <==> forall|x: u128|
            start <= x <= end ==> #[trigger] s.addr_site(x) == Some(id),
{
    if forall|x: u128| start <= x <= end ==> #[trigger] s.addr_site(x) == Some(id) {
        assert(s.holds_all(start, end, id));
        let other = s.range_site(start, end)->Some_0;
        assert(s.holds_all(start, end, other));
        assert(s.addr_site(start) == Some(id));
        assert(s.addr_site(start) == Some(other));
    }
    if s.range_site(start, end) == Some(id) {
        assert(s.holds_all(start, end, id));
    }
}

/// What is reported as a contest is one: at least two ids take part, in ascending order,
/// and they are those of the sites that have the label, or that have every address of
/// the stretch; no other site has any of these.
pub proof fn law_contests_are_between_sites(s: SchemeView, c: Contest, x: u128, id: u16)
    requires
        is_contest(s, c),
    ensures
        match c {
            Contest::Label { label, sites } => {
                &&& sites@.len() >= 2
                &&& sites@[0] < sites@[1]
                &&& sites@.contains(id) <==> exists|i: int|
                    0 <= i < s.sites.len() && (#[trigger] s.sites[i]).id == id && has_label(
                        s.sites[i],
                        label@,
                    )
            },
            Contest::Range { start, end, sites } => {
                &&& start <= end
                &&& sites@.len() >= 2
                &&& sites@[0] < sites@[1]
                &&& start <= x <= end ==> (sites@.contains(id) <==> exists|i: int|
                    0 <= i < s.sites.len() && (#[trigger] s.sites[i]).id == id && has_address(
                        s.sites[i],
                        x as int,
                    ))
            },
        },
{
    match c {
        Contest::Label { label, sites } => {
            law_claims_are_of_sites(s.sites, x, label@, id);
        },
        Contest::Range { start, end, sites } => {
            law_claims_are_of_sites(s.sites, x, seq![], id);
            if start <= x <= end {
                assert(claims(s.sites, x, id) <==> sites@.contains(id));
            }
        },
    }
}

/// A list of contests that reports a label, or an address, holds one about it.
pub proof fn law_reports_are_about_something(cs: Seq<Contest>, label: Seq<u8>, x: u128)
    ensures
        label_reported(cs, label) ==> exists|i: int|
            0 <= i < cs.len() && (#[trigger] cs[i] matches Contest::Label { label: l, sites }
                && l@ == label),
        address_reported(cs, x) ==> exists|i: int|
            0 <= i < cs.len() && (#[trigger] cs[i] matches Contest::Range { start, end, sites }
                && start <= x <= end),
{
    if label_reported(cs, label) {
        let i = choose|i: int| 0 <= i < cs.len() && about_label(#[trigger] cs[i], label);
        let c = cs[i];
    }
    if address_reported(cs, x) {
        let i = choose|i: int| 0 <= i < cs.len() && about_address(#[trigger] cs[i], x);
        let c = cs[i];
    }
}

} // verus!
