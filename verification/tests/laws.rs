//! What holds of the library as a whole, on concrete values.

use ppv2_auth::cidr::{self, CidrSet};
use ppv2_auth::config::{self, match_scopes, Config, Pattern, Scope};
use ppv2_auth::groups::Groups;
use ppv2_auth::identity::{
    self, encode_all_sites, encode_member, synthesize, to_u128, Contest, Prefix, Scheme, Site,
};
use ppv2_auth::ip::{read_v4, read_v6, write_v4, write_v6};
use ppv2_auth::ppv2::{self, Error, Header, MAX_HEADER, SIGNATURE};
use ppv2_auth::tcp::{AuthFilter, Ppv2Filter, Reason, Step};
use std::sync::Arc;

const PREFIX: Prefix = [0xfd, 0x00, 0xde, 0xad, 0xbe, 0xef];

fn chars(s: &str) -> Vec<char> {
    s.chars().collect()
}

fn octets(s: &str) -> [u8; 16] {
    read_v6(&chars(s)).unwrap()
}

fn number(s: &str) -> u128 {
    to_u128(octets(s))
}

fn site(id: u16, vpce: &[&str], cidrs: &str) -> Site {
    Site {
        id,
        vpce: vpce.iter().map(|v| v.as_bytes().to_vec()).collect(),
        cidrs: cidr::build(cidrs).unwrap(),
    }
}

fn from_v4(vpce: &[u8], a: u8, b: u8, c: u8, d: u8) -> Header<'_> {
    let mut src = [0u8; 16];
    src[..4].copy_from_slice(&[a, b, c, d]);
    Header { len: 0, src, src_port: 0, is_v6: false, vpce }
}

fn from_v6<'a>(vpce: &'a [u8], src: &str) -> Header<'a> {
    Header { len: 0, src: octets(src), src_port: 0, is_v6: true, vpce }
}

fn header(declared: u16, body: &[u8]) -> Vec<u8> {
    let mut out = SIGNATURE.to_vec();
    out.extend_from_slice(&[0x21, 0x11]);
    out.extend_from_slice(&declared.to_be_bytes());
    out.extend_from_slice(body);
    out
}

/// What a rule comes to, as a set.
fn rule(scheme: &Scheme, member: &str) -> CidrSet {
    cidr::build(&encode_member(Some(scheme), member).unwrap()).unwrap()
}

fn scope(names: &[&str], allow: &str) -> Scope {
    Scope {
        names: names.iter().map(|n| Pattern::parse(n)).collect(),
        allow: cidr::build(allow).unwrap(),
    }
}

// --- addresses ----------------------------------------------------------------

#[test]
fn address_texts_are_the_shortest_and_read_back() {
    for (text, canonical) in [
        ("0:0:0:0:0:0:0:0", "::"),
        ("0:0:0:0:0:0:0:1", "::1"),
        ("FD00:DEAD:BEEF:0001:0:0:0:0", "fd00:dead:beef:1::"),
        ("1:0:0:2:0:0:0:3", "1:0:0:2::3"),
        ("1:0:2:3:4:5:6:7", "1:0:2:3:4:5:6:7"),
        ("::ffff:10.0.1.28", "::ffff:10.0.1.28"),
        ("::ffff:0a00:011c", "::ffff:10.0.1.28"),
        ("::10.0.1.28", "::a00:11c"),
        ("2001:db8::192.0.2.33", "2001:db8::c000:221"),
    ] {
        let o = octets(text);
        assert_eq!(write_v6(&o), canonical);
        assert_eq!(octets(&write_v6(&o)), o);
    }
    for q in [[0, 0, 0, 0], [10, 0, 1, 28], [255, 255, 255, 255]] {
        assert_eq!(read_v4(&chars(&write_v4(&q))), Some(q));
        // A dotted quad is never an IPv6 address.
        assert_eq!(read_v6(&chars(&write_v4(&q))), None);
    }
}

#[test]
fn what_is_no_address_is_not_read_as_one() {
    for text in [
        "", ":", ":::", "1::2::3", "1:2:3:4:5:6:7", "1:2:3:4:5:6:7:8:9", "12345::", "g::", "::1 ",
        "1:2:3:4:5:6:7:8::", "::1:2:3:4:5:6:7:8", "1.2.3.4::", "::1.2.3", "::256.0.0.1",
    ] {
        assert_eq!(read_v6(&chars(text)), None, "{text:?}");
    }
    for text in ["", "1.2.3", "1.2.3.4.5", "01.2.3.4", "1.2.3.256", "1.2.3.4 ", "1..2.3", "a.b.c.d"] {
        assert_eq!(read_v4(&chars(text)), None, "{text:?}");
    }
    // A gap may stand for one group.
    assert_eq!(octets("1:2:3:4:5:6:7::"), octets("1:2:3:4:5:6:7:0"));
}

#[test]
fn header_sources_are_written_in_their_own_family() {
    let h = from_v4(b"", 10, 0, 1, 28);
    assert_eq!(identity::format_src(h.src, false).as_str(), "10.0.1.28");
    assert_eq!(identity::format_src(octets("2001:db8::7"), true).as_str(), "2001:db8::7");
    assert_eq!(identity::format(octets("::ffff:10.0.1.28")).as_str(), "::ffff:10.0.1.28");
}

// --- sets ---------------------------------------------------------------------

#[test]
fn collapsing_keeps_the_addresses() {
    let set = cidr::build("fd00::/64 fd00:0:0:1::/64, fd00::5/128\n2001:db8::/32").unwrap();
    // What lies inside another range disappears; neighbours stay apart.
    assert_eq!(set.len(), 3);
    for inside in ["fd00::", "fd00::ffff:ffff:ffff:ffff", "fd00:0:0:1::", "2001:db8:ffff::1"] {
        assert!(set.contains(number(inside)), "{inside}");
    }
    for outside in ["fd00:0:0:2::", "fcff::", "2001:db7:ffff::", "2001:db9::", "::"] {
        assert!(!set.contains(number(outside)), "{outside}");
    }
}

#[test]
fn more_entries_admit_more() {
    let few = cidr::build("fd00:1::/32").unwrap();
    let many = cidr::build("fd00:1::/32 fd00:3::/32").unwrap();
    for addr in ["fd00:1::9", "fd00:3::9", "fd00:5::9"] {
        assert!(!few.contains(number(addr)) || many.contains(number(addr)));
    }
    assert!(many.contains(number("fd00:3::9")) && !few.contains(number("fd00:3::9")));
    let lists = ["fd00:1::/32".to_string(), "fd00:3::/32".to_string()];
    assert_eq!(cidr::build_from(&lists).unwrap().len(), many.len());
}

#[test]
fn the_empty_set_holds_nothing() {
    let set = cidr::build(" ,\n\t").unwrap();
    assert!(set.is_empty());
    assert!(!set.contains(0) && !set.contains(u128::MAX));
}

// --- headers ------------------------------------------------------------------

#[test]
fn the_payload_changes_nothing() {
    let mut buf = header(12, &[10, 0, 1, 28, 0, 0, 0, 0, 0x1f, 0x90, 0, 0]);
    let alone = ppv2::parse(&buf).map(|h| (h.len, h.src, h.src_port, h.is_v6, h.vpce.to_vec()));
    assert_eq!(alone.as_ref().unwrap().0, 28);
    assert_eq!(alone.as_ref().unwrap().2, 0x1f90);
    buf.extend_from_slice(b"GET / HTTP/1.1");
    let more = ppv2::parse(&buf).map(|h| (h.len, h.src, h.src_port, h.is_v6, h.vpce.to_vec()));
    assert_eq!(alone, more);
}

#[test]
fn an_invalid_start_stays_invalid() {
    let mut buf = b"GET ".to_vec();
    assert_eq!(ppv2::parse(&buf), Err(Error::Invalid));
    buf.extend_from_slice(&header(12, &[0; 12]));
    assert_eq!(ppv2::parse(&buf), Err(Error::Invalid));
}

#[test]
fn every_proper_start_asks_for_more_and_never_too_much() {
    let buf = header(12, &[10, 0, 1, 28, 0, 0, 0, 0, 0, 0, 0, 0]);
    for n in 0..buf.len() {
        let want = if n < 16 { 16 } else { 28 };
        assert_eq!(ppv2::parse(&buf[..n]), Err(Error::Need(want)));
        assert!(n < want && want <= MAX_HEADER);
    }
    assert_eq!(ppv2::parse(&buf).unwrap().len, buf.len());
}

#[test]
fn the_longest_header_is_the_limit() {
    let full = header(240, &[0; 240]);
    assert_eq!(full.len(), MAX_HEADER);
    assert_eq!(ppv2::parse(&full).unwrap().len, MAX_HEADER);
    assert_eq!(ppv2::parse(&header(241, &[])), Err(Error::Invalid));
    // Too short to hold the addresses.
    assert_eq!(ppv2::parse(&header(11, &[0; 11])), Err(Error::Invalid));
}

// --- who owns what ------------------------------------------------------------

fn contested() -> Scheme {
    Scheme::new(
        PREFIX,
        vec![
            site(7, &["vpce-a", "vpce-both"], "2001:db8::/32"),
            site(3, &["vpce-b", "vpce-both"], "2001:db8:8000::/33 2001:dead::/32"),
        ],
    )
}

#[test]
fn the_order_of_sites_makes_no_difference() {
    let other = Scheme::new(
        PREFIX,
        vec![
            site(3, &["vpce-both", "vpce-b"], "2001:dead::/32 2001:db8:8000::/33"),
            site(7, &["vpce-both", "vpce-a"], "2001:db8::/32"),
        ],
    );
    for x in ["2001:db8::1", "2001:db8:8000::1", "2001:dead::1", "2001:beef::1"] {
        assert_eq!(contested().addr_site(number(x)), other.addr_site(number(x)));
    }
    for label in ["vpce-a", "vpce-b", "vpce-both", "vpce-c"] {
        assert_eq!(contested().label_site(label.as_bytes()), other.label_site(label.as_bytes()));
    }
    assert_eq!(contested().contests(), other.contests());
}

#[test]
fn ownership_is_sole_contested_or_none() {
    let s = contested();
    assert_eq!(s.addr_site(number("2001:db8::1")), Some(7));
    assert_eq!(s.addr_site(number("2001:dead::1")), Some(3));
    assert_eq!(s.addr_site(number("2001:db8:8000::1")), Some(0));
    assert_eq!(s.addr_site(number("2001:beef::1")), None);
    assert_eq!(s.label_site(b"vpce-a"), Some(7));
    assert_eq!(s.label_site(b"vpce-b"), Some(3));
    assert_eq!(s.label_site(b"vpce-both"), Some(0));
    assert_eq!(s.label_site(b"vpce-c"), None);
    // A range that two owners share is neither's.
    assert_eq!(s.range_site(number("2001:db8::"), number("2001:db8:7fff::")), Some(7));
    assert_eq!(s.range_site(number("2001:db8::"), number("2001:db8:8000::")), None);
    assert!(s.declares(3) && s.declares(7) && !s.declares(0) && !s.declares(5));
}

#[test]
fn each_contest_is_reported_with_its_claimants() {
    assert_eq!(
        contested().contests(),
        vec![
            Contest::Label { label: b"vpce-both".to_vec(), sites: vec![3, 7] },
            Contest::Range {
                start: number("2001:db8:8000::"),
                end: number("2001:db8:ffff:ffff:ffff:ffff:ffff:ffff"),
                sites: vec![3, 7],
            },
        ]
    );
    assert!(Scheme::new(PREFIX, vec![site(7, &["vpce-a"], "2001:db8::/32")]).contests().is_empty());
}

#[test]
fn a_contest_is_cut_where_the_claimants_change() {
    let s = Scheme::new(
        PREFIX,
        vec![
            // Two neighbouring halves, as one site writes them.
            site(1, &["vpce-x"], "2001:db8::/34 2001:db8:4000::/34"),
            site(2, &["vpce-x"], "2001:db8::/33"),
            site(3, &["vpce-x"], "2001:db8:8000::/33"),
            site(4, &[], "2001:db8:8000::/33 2001:db8:f000::/36"),
            site(5, &[], "2001:db8:f000::/36"),
        ],
    );
    let range = |start: &str, end: &str, sites: &[u16]| Contest::Range {
        start: number(start),
        end: number(end),
        sites: sites.to_vec(),
    };
    assert_eq!(
        s.contests(),
        vec![
            Contest::Label { label: b"vpce-x".to_vec(), sites: vec![1, 2, 3] },
            range("2001:db8::", "2001:db8:7fff:ffff:ffff:ffff:ffff:ffff", &[1, 2]),
            range("2001:db8:8000::", "2001:db8:efff:ffff:ffff:ffff:ffff:ffff", &[3, 4]),
            range("2001:db8:f000::", "2001:db8:ffff:ffff:ffff:ffff:ffff:ffff", &[3, 4, 5]),
        ]
    );
    // All of it is one quarantine.
    assert_eq!(
        s.range_site(number("2001:db8::"), number("2001:db8:ffff:ffff:ffff:ffff:ffff:ffff")),
        Some(0)
    );
    // Up to the last address there is.
    let all = Scheme::new(PREFIX, vec![site(1, &[], "::/0"), site(2, &[], "ffff::/16")]);
    assert_eq!(
        all.contests(),
        vec![range("ffff::", "ffff:ffff:ffff:ffff:ffff:ffff:ffff:ffff", &[1, 2])]
    );
}

// --- rules and the wire -------------------------------------------------------

fn onboarded() -> Scheme {
    Scheme::new(
        PREFIX,
        vec![
            site(1, &["vpce-a"], "::ffff:203.0.113.0/120 2001:db8::/32"),
            site(2, &["vpce-b"], ""),
        ],
    )
}

#[test]
fn a_rule_admits_what_the_wire_says() {
    let s = onboarded();
    for (member, h) in [
        ("!1", from_v4(b"vpce-a", 10, 0, 1, 28)),
        ("!1", from_v4(b"", 203, 0, 113, 9)),
        ("vpce-a", from_v4(b"vpce-a", 10, 0, 1, 28)),
        ("vpce-z", from_v4(b"vpce-z", 10, 0, 1, 28)),
        ("203.0.113.0/24", from_v4(b"", 203, 0, 113, 9)),
        ("203.0.113.9", from_v4(b"", 203, 0, 113, 200)),
        ("10.0.0.0/8", from_v4(b"", 10, 0, 1, 28)),
        ("10.0.1.28", from_v4(b"", 10, 0, 1, 28)),
        ("2001:db8:5::/48", from_v6(b"", "2001:db8:5::1")),
        ("2001:beef::/32", from_v6(b"", "2001:beef::1")),
    ] {
        assert!(rule(&s, member).contains(to_u128(synthesize(&s, &h))), "{member}");
    }
    for (member, h) in [
        ("!2", from_v4(b"vpce-a", 10, 0, 1, 28)),
        ("vpce-z", from_v4(b"vpce-y", 10, 0, 1, 28)),
        ("10.0.0.0/8", from_v4(b"", 11, 0, 1, 28)),
        ("10.0.0.0/8", from_v4(b"vpce-z", 10, 0, 1, 28)),
        ("2001:beef::/32", from_v6(b"", "2001:bee0::1")),
    ] {
        assert!(!rule(&s, member).contains(to_u128(synthesize(&s, &h))), "{member}");
    }
}

#[test]
fn members_encode_to_these_texts() {
    let s = onboarded();
    for (member, text) in [
        ("!1", "fd00:dead:beef:b1a:0:1::/96"),
        ("!0", "fd00:dead:beef:b1a::/96"),
        ("vpce-b", "fd00:dead:beef:b1a:0:2::/96"),
        ("vpce-0123456789abcdef0", "fd00:dead:beef:1:7b53:e75b::/96"),
        ("18.199.0.0/16", "fd00:dead:beef:4::12c7:0/112"),
        ("2a02::1", "2a02::1/128"),
    ] {
        assert_eq!(encode_member(Some(&s), member).unwrap(), text);
    }
    assert_eq!(
        encode_all_sites(&s),
        ["fd00:dead:beef:b1a:0:1::/96", "fd00:dead:beef:b1a:0:2::/96"]
    );
    assert_eq!(encode_member(None, "2a02::/16").unwrap(), "2a02::/16");
    assert_eq!(
        encode_member(None, "vpce-\"a\"").unwrap_err(),
        r#""vpce-\"a\"" needs `ula` to encode"#
    );
}

#[test]
fn no_rule_reaches_into_a_site_it_does_not_name() {
    let s = contested();
    let quarantine = number("fd00:dead:beef:b1a::1.2.3.4");
    let seven = number("fd00:dead:beef:b1a:0:7:a00:11c");
    for (member, site) in [
        ("!0", Some(0)),
        ("vpce-both", Some(0)),
        ("2001:db8:9000::/36", Some(0)),
        ("!7", Some(7)),
        ("vpce-a", Some(7)),
        ("2001:db8:1::/48", Some(7)),
        ("!3", Some(3)),
        ("vpce-c", None),
        ("0.0.0.0/0", None),
    ] {
        assert_eq!(rule(&s, member).contains(quarantine), site == Some(0), "{member}");
        assert_eq!(rule(&s, member).contains(seven), site == Some(7), "{member}");
    }
    for every in encode_all_sites(&s) {
        assert!(!cidr::build(&every).unwrap().contains(quarantine));
    }
}

#[test]
fn without_sites_only_two_kinds_are_left() {
    let s = Scheme::new(PREFIX, Vec::new());
    assert_eq!(
        synthesize(&s, &from_v4(b"vpce-0123456789abcdef0", 10, 0, 1, 28)),
        octets("fd00:dead:beef:1:7b53:e75b:a00:11c")
    );
    assert_eq!(
        synthesize(&s, &from_v4(b"", 10, 0, 1, 28)),
        octets("fd00:dead:beef:4::a00:11c")
    );
    assert_eq!(synthesize(&s, &from_v6(b"", "2a02::1")), octets("2a02::1"));
    // An IPv6 client has no IPv4 to carry.
    assert_eq!(
        synthesize(&s, &from_v6(b"vpce-0123456789abcdef0", "2a02::1")),
        octets("fd00:dead:beef:1:7b53:e75b::")
    );
}

#[test]
fn a_kind_rule_holds_the_whole_kind_and_no_other() {
    let s = onboarded();
    let kinds = ["b1a", "1", "4"];
    for (kind, h) in [
        ("b1a", from_v4(b"vpce-a", 10, 0, 1, 28)),
        ("1", from_v4(b"vpce-z", 10, 0, 1, 28)),
        ("4", from_v4(b"", 10, 0, 1, 28)),
    ] {
        let addr = to_u128(synthesize(&s, &h));
        for k in kinds {
            let coarse = cidr::build(&format!("fd00:dead:beef:{k}::/64")).unwrap();
            assert_eq!(coarse.contains(addr), k == kind);
        }
    }
}

// --- groups -------------------------------------------------------------------

fn texts(list: &[&str]) -> Vec<String> {
    list.iter().map(|s| s.to_string()).collect()
}

#[test]
fn a_walk_finds_all_and_only_once() {
    let mut g = Groups::default();
    g.insert("n".into(), "a".into(), texts(&["x", "@b", "@gone"]));
    g.insert("n".into(), "b".into(), texts(&["y", "@a", "x"]));
    g.insert("m".into(), "a".into(), texts(&["z"]));
    let mut found = g.walk("n", &texts(&["@a"]), false);
    found.sort();
    found.dedup();
    assert_eq!(found, ["x", "y"]);
    // Kept, an unknown ref is a name like any other.
    assert!(g.walk("n", &texts(&["@a"]), true).contains(&"@gone".to_string()));
    // Another namespace is another world.
    assert_eq!(g.walk("m", &texts(&["@a"]), false), ["z"]);
    g.remove("n", "b");
    assert_eq!(g.walk("n", &texts(&["@a"]), false), ["x"]);
    assert_eq!(g.len(), 2);
}

// --- server names -------------------------------------------------------------

#[test]
fn a_name_is_claimed_as_documented() {
    let scopes = vec![
        scope(&["*.test"], "fd00:1::/32"),
        scope(&["*.mgmt.test"], "fd00:2::/32"),
        scope(&["L7.Mgmt.Test", "", "foo.*"], "fd00:3::/32"),
    ];
    for (sni, want) in [
        ("l7.mgmt.test", Some("fd00:3::1")),
        ("L7.MGMT.TEST", Some("fd00:3::1")),
        ("a.mgmt.test", Some("fd00:2::1")),
        ("a.b.mgmt.test", Some("fd00:2::1")),
        ("mgmt.test", Some("fd00:1::1")),
        ("xmgmt.test", Some("fd00:1::1")),
        ("", Some("fd00:3::1")),
        ("foo.*", Some("fd00:3::1")),
        ("test", None),
        ("foo.bar", None),
    ] {
        let set = match_scopes(&scopes, sni.as_bytes());
        assert_eq!(set.is_some(), want.is_some(), "{sni}");
        if let Some(addr) = want {
            assert!(set.unwrap().contains(number(addr)), "{sni}");
        }
    }
    assert!(match_scopes(&[], b"").is_none());
    assert!(match_scopes(&scopes[..2], b"").is_none());
    assert!(match_scopes(&scopes[1..2], b"mgmt.test").is_none());
}

// --- configs ------------------------------------------------------------------

fn parsed(text: &str) -> Config {
    config::parse(text).unwrap()
}

#[test]
fn lists_admit_exactly_what_their_members_do() {
    let c = parsed(
        r#"{"ula":"fd00:dead:beef::/48","sites":{"1":["vpce-a"],"2":["vpce-b"]},
            "groups":{"a":["@b","10.0.0.0/8"],"b":["!2","@a"]},"allow":["@a"]}"#,
    );
    let s = c.scheme().unwrap();
    for (h, admitted) in [
        (from_v4(b"vpce-b", 1, 2, 3, 4), true),
        (from_v4(b"", 10, 2, 3, 4), true),
        (from_v4(b"vpce-a", 1, 2, 3, 4), false),
        (from_v4(b"", 11, 2, 3, 4), false),
        (from_v6(b"", "2a02::1"), false),
    ] {
        assert_eq!(c.permits(b"any.test", to_u128(synthesize(s, &h))), admitted);
    }
}

#[test]
fn an_empty_list_denies() {
    let c = parsed(r#"{"ula":"fd00:dead:beef::/48","allow":[]}"#);
    assert!(!c.permits_unscoped(0) && !c.permits_unscoped(u128::MAX));
}

#[test]
fn scopes_take_the_place_of_the_flat_list() {
    let c = parsed(
        r#"{"allow":["fd00:1::/32"],"scopes":[{"sni":["a.test"],"allow":["fd00:2::/32"]}]}"#,
    );
    assert!(c.permits(b"a.test", number("fd00:2::1")));
    assert!(!c.permits(b"a.test", number("fd00:1::1")));
    assert!(!c.permits(b"b.test", number("fd00:1::1")));
}

// --- filters ------------------------------------------------------------------

#[test]
fn a_refusal_is_final_and_so_is_an_admission() {
    let c = Arc::new(parsed(r#"{"ula":"fd00:dead:beef::/48","allow":["10.0.0.0/8"]}"#));
    let buf = header(12, &[10, 0, 1, 28, 0, 0, 0, 0, 0, 0, 0, 0]);

    let mut f = Ppv2Filter::new(c.clone(), true);
    assert!(matches!(f.on_data(None, b"GET "), Step::Refuse(Reason::NotProxyProtocol)));
    assert!(matches!(f.on_data(None, &buf), Step::Wait));

    let mut f = Ppv2Filter::new(c.clone(), true);
    let Step::Label(label) = f.on_data(None, &buf) else { panic!("no label") };
    assert_eq!(label.id, number("fd00:dead:beef:4::a00:11c"));
    assert_eq!(label.text.as_str(), "fd00:dead:beef:4::a00:11c");
    assert_eq!((label.src.as_str(), label.len), ("10.0.1.28", 28));
    assert!(matches!(f.labelled(&label, true), Step::Admit));
    assert!(matches!(f.on_data(None, b"GET "), Step::Admit));

    let mut f = AuthFilter::new(c);
    assert!(matches!(f.on_accept(None, b""), Step::Refuse(Reason::NoIdentityLabel)));
    assert!(!matches!(f.on_data(), Step::Admit));
}
