//! What is refused, and in which words; and what subscribers do meanwhile.

use ppv2_auth::config::{self, publish, published, Config, Published, TablePool};
use ppv2_auth::identity::{parse_prefix, parse_via_prefix};
use ppv2_auth::ip::read_v6;
use ppv2_auth::json::{keys, opens_array};
use ppv2_auth::raw;
use ppv2_auth::validate::{self, Filter};
use ppv2_auth::{cidr, identity, validate_auth, validate_ppv2, validate_ppv2_auth, validate_table};
use std::sync::Arc;

fn refusal(text: &str) -> String {
    config::parse(text).unwrap_err()
}

fn parsed(text: &str) -> Config {
    config::parse(text).unwrap()
}

fn number(s: &str) -> u128 {
    let chars: Vec<char> = s.chars().collect();
    identity::to_u128(read_v6(&chars).unwrap())
}

#[test]
fn cidr_entries_are_refused_with_a_reason() {
    assert_eq!(cidr::build("fd00::").unwrap_err(), "missing prefix length");
    assert_eq!(cidr::build("10.0.0.0/8").unwrap_err(), "bad IPv6 address");
    assert_eq!(cidr::build("fd00::/x").unwrap_err(), "bad prefix length");
    assert_eq!(cidr::build("fd00::/").unwrap_err(), "bad prefix length");
    assert_eq!(cidr::build("fd00::/129").unwrap_err(), "prefix length above 128");
    // The first bad entry is the one reported.
    assert_eq!(cidr::build("fd00::/8 fd00:: fd00::/x").unwrap_err(), "missing prefix length");
    // Widths are read as integers are: a plus sign and leading zeros pass.
    assert_eq!(cidr::build("fd00::/+008").unwrap().len(), 1);
}

#[test]
fn prefixes_are_refused_with_a_reason() {
    assert_eq!(parse_prefix("fd00:dead:beef::").unwrap(), [0xfd, 0, 0xde, 0xad, 0xbe, 0xef]);
    assert_eq!(parse_prefix("fd00::/x").unwrap_err(), "bad prefix length");
    assert_eq!(parse_prefix("10.0.0.0/48").unwrap_err(), "bad IPv6 address");
    assert_eq!(parse_prefix("fd00::/56").unwrap_err(), "prefix must be /48");
    assert_eq!(parse_prefix("2001:db8::/48").unwrap_err(), "not unique-local");
    assert_eq!(parse_prefix("fd00::1/48").unwrap_err(), "prefix has bits set below /48");
    assert_eq!(parse_via_prefix("fd00::/48").unwrap_err(), "via prefix must be /64");
    assert_eq!(parse_via_prefix("fd00::1/64").unwrap_err(), "via prefix has bits set below /64");
}

#[test]
fn sites_are_refused_with_a_reason() {
    let sites = |s: &str| refusal(&format!(r#"{{"ula":"fd00:dead:beef::/48","sites":{s}}}"#));
    assert_eq!(sites(r#"{"0":[]}"#), r#"site key "0" is not 1-65535"#);
    assert_eq!(sites(r#"{"65536":[]}"#), r#"site key "65536" is not 1-65535"#);
    assert_eq!(sites(r#"{"a\"b":[]}"#), r#"site key "a\"b" is not 1-65535"#);
    assert_eq!(sites(r#"{"1":["10.0.0.0/x"]}"#), r#"bad prefix length in site source "10.0.0.0/x""#);
    assert_eq!(
        sites(r#"{"1":["10.0.0.0/33"]}"#),
        r#"prefix length above /32 in site source "10.0.0.0/33""#
    );
    assert_eq!(sites(r#"{"1":["2001:db8::/129"]}"#), "prefix length above 128");
    assert_eq!(refusal(r#"{"sites":{"1":[]}}"#), "`sites` needs `ula` to encode into");
    // Blank sources are no sources.
    let c = parsed(r#"{"ula":"fd00:dead:beef::/48","sites":{"1":[" ","\n"," vpce-a\n"]}}"#);
    assert_eq!(c.scheme().unwrap().label_site(b"vpce-a"), Some(1));
    assert_eq!(c.scheme().unwrap().label_site(b""), None);
}

#[test]
fn members_without_a_ula_are_refused_with_a_reason() {
    assert_eq!(refusal(r#"{"allow":["vpce-a"]}"#), r#""vpce-a" needs `ula` to encode"#);
    assert_eq!(refusal(r#"{"allow":["10.0.0.1"]}"#), r#""10.0.0.1" needs `ula` to encode"#);
    assert_eq!(refusal(r#"{"groups":{"g":["!1"]}}"#), r#""!1" needs `ula` to encode"#);
}

#[test]
fn fields_must_be_known_and_written_once() {
    let expected = "expected one of `ula`, `sites`, `groups`, `allow`, `scopes`, `subscribe`";
    assert_eq!(refusal(r#"{"ulaa":""}"#), format!("unknown field `ulaa`, {expected}"));
    assert_eq!(
        refusal(r#"{"scopes":[{"snii":[]}]}"#),
        "unknown field `snii`, expected `sni` or `allow`"
    );
    assert_eq!(refusal(r#"{"allow":[],"allow":["fd00::/8"]}"#), "duplicate field `allow`");
    assert_eq!(refusal(r#"{"allow":[],"a\u006clow":[]}"#), "duplicate field `allow`");
    assert_eq!(refusal(r#"{"scopes":[{"sni":["a"],"sni":[]}]}"#), "duplicate field `sni`");
    // Colons in strings and further in do not count as fields.
    let c = parsed(
        r#" { "ula" : "fd00:dead:beef::/48" , "groups" : {"a:\":{":["b:c\\"],"d":[]}, "allow":["x:y"] } "#,
    );
    assert!(c.has_allow());
    assert!(keys("{}").is_empty());
    assert_eq!(keys(r#"{"a":{"b":[":"]},"c\"":"\":","a":1}"#), [r#""a""#, r#""c\"""#, r#""a""#]);
    // Names in a map are data, not fields: of two the last stands.
    let c = parsed(r#"{"ula":"fd00:dead:beef::/48","sites":{"1":["vpce-a"],"1":["vpce-b"]}}"#);
    assert_eq!(c.scheme().unwrap().label_site(b"vpce-a"), None);
    assert_eq!(c.scheme().unwrap().label_site(b"vpce-b"), Some(1));
    // But each of them is looked at.
    assert!(config::parse(r#"{"ula":"fd00:dead:beef::/48","sites":{"1":1,"1":["vpce-b"]}}"#).is_err());
}

#[test]
fn values_of_the_wrong_shape_are_refused() {
    for text in [
        "",
        "null",
        "3",
        r#"{"ula":1}"#,
        r#"{"allow":"fd00::/8"}"#,
        r#"{"allow":[1]}"#,
        r#"{"allow":null}"#,
        r#"{"scopes":{}}"#,
        r#"{"scopes":["a"]}"#,
        r#"{"scopes":[{"sni":"a"}]}"#,
        r#"{"sites":[]}"#,
        r#"{"groups":{"a":"b"}}"#,
        r#"{"subscribe":"yes"}"#,
        r#"{"allow":[]} {}"#,
    ] {
        assert!(config::parse(text).is_err(), "{text}");
    }
    // Null stands for absence where absence has a meaning.
    let c = parsed(r#"{"ula":null,"scopes":null}"#);
    assert!(c.scheme().is_none() && !c.has_scopes());
}

#[test]
fn the_first_bad_field_is_the_one_reported() {
    // In the order of the text.
    assert_eq!(refusal(r#"{"allow":1,"ula":2}"#), refusal(r#"{"allow":1}"#));
    assert_eq!(refusal(r#"{"ula":2,"allow":1}"#), refusal(r#"{"ula":2}"#));
    assert!(refusal(r#"{"y":1,"x":1}"#).starts_with("unknown field `y`, "));
    assert!(refusal(r#"{"x":1,"ula":2}"#).starts_with("unknown field `x`, "));
    assert_eq!(refusal(r#"{"ula":null,"ula":3,"x":1}"#), "duplicate field `ula`");
}

#[test]
fn an_array_stands_for_the_fields_in_order() {
    // The rules of a filter, both of them.
    let c = parsed(r#" [["fd00:1::/32"], [[["a.test"], ["fd00:2::/32"]], {"sni":["b.test"]}, []]]"#);
    assert!(c.has_allow() && c.has_scopes());
    assert!(c.permits(b"a.test", number("fd00:2::1")));
    assert!(!c.permits(b"b.test", number("fd00:2::1")));
    assert!(parsed(r#"[["fd00:1::/32"], null]"#).permits_unscoped(number("fd00:1::1")));
    assert_eq!(refusal("[]"), "invalid length 1");
    assert_eq!(refusal("[[]]"), "invalid length 1");
    assert_eq!(refusal("[[], null, null]"), "trailing characters");
    assert_eq!(refusal("[1]"), refusal(r#"{"allow":1}"#));
    assert_eq!(refusal(r#"{"scopes":[[[],[],[]]]}"#), "trailing characters");
    // The table of a carrier, of which the sites and groups may be left out.
    let t = config::parse_table(r#"["fd00:dead:beef::/48",{"1":["vpce-a"]}]"#).unwrap();
    assert_eq!(t.scheme.as_ref().unwrap().label_site(b"vpce-a"), Some(1));
    assert!(config::parse_table(r#"["fd00:dead:beef::/48"]"#).is_ok());
    assert_eq!(config::parse_table("[]").unwrap_err(), "invalid length 0");
    assert!(opens_array("\n\t [") && !opens_array("{[") && !opens_array(" "));
}

#[test]
fn what_is_written_is_what_is_read() {
    let r = raw::read(
        r#"{"groups":{"b":["2"],"a":["1","1"]},"scopes":[{"allow":["x"]},{"sni":["s"]}],"allow":["\u00e9"]}"#,
    )
    .unwrap();
    assert_eq!(r.groups[0], ("a".to_string(), vec!["1".to_string(), "1".to_string()]));
    assert_eq!(r.groups[1], ("b".to_string(), vec!["2".to_string()]));
    assert_eq!(r.allow, ["\u{e9}"]);
    let scopes = r.scopes.unwrap();
    assert_eq!((scopes[0].sni.len(), scopes[0].allow.len()), (0, 1));
    assert_eq!((scopes[1].sni.len(), scopes[1].allow.len()), (1, 0));
    assert!(r.ula.is_none() && r.sites.is_empty() && !r.subscribe);
}

#[test]
fn validators_say_what_is_wrong() {
    let bare = parsed(r#"{"allow":["fd00::/8"]}"#);
    let table = parsed(r#"{"ula":"fd00:dead:beef::/48"}"#);
    let flat = parsed(r#"{"ula":"fd00:dead:beef::/48","allow":["vpce-a"]}"#);
    let scoped = parsed(r#"{"scopes":[{"sni":["a.test"],"allow":["fd00::/8"]}]}"#);
    let both = parsed(r#"{"allow":["fd00::/8"],"scopes":[]}"#);
    let nameless = parsed(r#"{"scopes":[{"allow":["fd00::/8"]}]}"#);
    let named = parsed(r#"{"ula":"fd00:dead:beef::/48","scopes":[]}"#);

    assert!(validate_ppv2(&table).is_ok());
    assert!(validate_ppv2(&bare).unwrap_err().contains("needs `ula`"));
    assert_eq!(
        validate_ppv2(&flat),
        Err("`ppv2` takes only `ula`; use `ppv2_auth` to also enforce")
    );
    assert!(validate_ppv2_auth(&flat).is_ok() && validate_ppv2_auth(&table).is_ok());
    assert_eq!(
        validate_ppv2_auth(&bare),
        Err("`ppv2_auth` needs `ula` to synthesize an identity")
    );
    assert_eq!(
        validate_ppv2_auth(&named),
        Err("`ppv2_auth` runs before tls_inspector, so there is no SNI yet; use `auth`")
    );
    assert!(validate_auth(&scoped).is_ok());
    assert_eq!(validate_auth(&flat), Err("`auth` needs `scopes`"));
    assert_eq!(
        validate_auth(&both),
        Err("`auth` ignores a top-level `allow`; put those rules in a scope")
    );
    assert_eq!(validate_auth(&nameless), Err("a scope needs at least one `sni`"));
    assert!(validate_table(&table).is_ok());
    assert_eq!(
        validate_table(&bare),
        Err("`table` needs `ula`; carrying an empty table would deny every slim filter")
    );
    assert_eq!(
        validate_table(&flat),
        Err("`table` carries identity, not rules; put `allow`/`scopes` on the enforcing filters")
    );
}

#[test]
fn filters_go_by_name() {
    for filter in [Filter::Ppv2Auth, Filter::Ppv2, Filter::Auth, Filter::Table] {
        assert_eq!(filter.enforces(), filter == Filter::Ppv2Auth);
        assert_eq!(filter.publishes(), filter == Filter::Table);
    }
    assert_eq!(validate::tcp_filter("ppv2_auth"), Ok(Filter::Ppv2Auth));
    assert_eq!(validate::tcp_filter("ppv2"), Ok(Filter::Ppv2));
    assert_eq!(validate::tcp_filter("auth"), Ok(Filter::Auth));
    assert_eq!(validate::tcp_filter("table"), Ok(Filter::Table));
    assert_eq!(
        validate::tcp_filter("pp\tv2").unwrap_err(),
        r#"unknown filter_name "pp\tv2"; expected ppv2_auth, ppv2, auth or table"#
    );
    assert_eq!(validate::udp_filter("ppv2_auth"), Ok(Filter::Ppv2Auth));
    assert_eq!(validate::udp_filter("table"), Ok(Filter::Table));
    assert_eq!(
        validate::udp_filter("auth").unwrap_err(),
        r#"UDP supports only filter_name ppv2_auth or table, got "auth""#
    );
}

#[test]
fn a_filter_config_is_loaded_from_bytes() {
    let mut pool = TablePool::default();
    let text = r#"{"ula":"fd00:dead:beef::/48","allow":["é"]}"#;
    let c = validate::load(&mut pool, text.as_bytes(), Filter::Ppv2Auth).unwrap();
    assert_eq!(c.raw_allow, ["é"]);
    assert_eq!(
        validate::load(&mut pool, &[0x7b, 0xff, 0x7d], Filter::Auth).unwrap_err(),
        "filter_config is not valid UTF-8"
    );
    for blank in ["", " \n", "\u{a0}\u{3000}"] {
        assert_eq!(
            validate::load(&mut pool, blank.as_bytes(), Filter::Auth).unwrap_err(),
            "filter_config is missing"
        );
    }
    assert_eq!(
        validate::load(&mut pool, text.as_bytes(), Filter::Auth).unwrap_err(),
        "`auth` needs `scopes`"
    );
    assert_eq!(
        validate::load_text(&mut pool, r#"{"x":1}"#, Filter::Auth).unwrap_err(),
        "unknown field `x`, expected one of `ula`, `sites`, `groups`, `allow`, `scopes`, `subscribe`"
    );
    // The table is there for the next listener.
    let d = validate::load(&mut pool, text.as_bytes(), Filter::Ppv2Auth).unwrap();
    assert!(Arc::ptr_eq(&c.table, &d.table));
}

#[test]
fn a_carrier_has_a_table_and_no_rules() {
    let t = config::parse_table(r#"{"ula":"fd00:dead:beef::/48","sites":{"1":["vpce-a"]}}"#).unwrap();
    assert_eq!(t.scheme.as_ref().unwrap().label_site(b"vpce-a"), Some(1));
    assert_eq!(config::parse_table("{}").unwrap_err(), "missing field `ula`");
    assert_eq!(
        config::parse_table(r#"{"ula":"fd00:dead:beef::/48","allow":[]}"#).unwrap_err(),
        "unknown field `allow`, expected one of `ula`, `sites`, `groups`"
    );
    assert_eq!(config::parse_table(r#"{"ula":"fd00::/56"}"#).unwrap_err(), "prefix must be /48");
}

#[test]
fn a_subscriber_follows_the_published_table() {
    let mut cell = Published::default();
    let mut c = parsed(r#"{"subscribe":true,"allow":["@tenants"]}"#);
    assert!(!c.carries_table());
    assert!(validate_ppv2_auth(&c).is_ok());
    let tenant = number("fd00:dead:beef:b1a:0:1:a00:11c");
    let other = number("fd00:dead:beef:b1a:0:2:a00:11c");

    // Nothing published: everything denies, and there is nothing to encode with.
    let (generation, table) = published(&cell);
    assert!(c.refresh(generation, table.as_deref()).is_none());
    assert!(c.scheme_with(table.as_deref()).is_none());
    assert!(!c.permits_unscoped(tenant));

    let carry = |group: &str| {
        config::parse_table(&format!(
            r#"{{"ula":"fd00:dead:beef::/48","sites":{{"1":[],"2":[]}},"groups":{{"tenants":["{group}"]}}}}"#
        ))
        .unwrap()
    };
    publish(&mut cell, carry("!1"));
    let (generation, table) = published(&cell);
    assert_eq!(generation, 1);
    // Not before it has been looked at.
    assert!(!c.permits_unscoped(tenant));
    assert!(c.refresh(generation, table.as_deref()).is_none());
    assert!(c.permits_unscoped(tenant) && !c.permits_unscoped(other));
    assert!(c.scheme_with(table.as_deref()).is_some());

    publish(&mut cell, carry("!2"));
    let (generation, table) = published(&cell);
    assert!(c.refresh(generation, table.as_deref()).is_none());
    assert!(!c.permits_unscoped(tenant) && c.permits_unscoped(other));

    // Other configs go by their own table.
    let mut own = parsed(r#"{"ula":"fd00:dead:beef::/48","sites":{"1":[]},"allow":["!1"]}"#);
    assert!(own.refresh(generation, table.as_deref()).is_none());
    assert!(own.permits_unscoped(tenant) && !own.permits_unscoped(other));
}

#[test]
fn rules_that_do_not_expand_deny_everything() {
    let bare = parsed("{}");
    let mut c = parsed(r#"{"subscribe":true,"allow":["fd00::/8","vpce-a"]}"#);
    assert_eq!(
        c.refresh(5, Some(&bare.table)).unwrap(),
        r#""vpce-a" needs `ula` to encode"#
    );
    assert!(!c.permits_unscoped(number("fd00::1")));
    // Said once for each publication.
    assert!(c.refresh(5, Some(&bare.table)).is_none());
}

#[test]
fn a_subscriber_brings_no_table_of_its_own() {
    for extra in [r#""ula":"fd00:dead:beef::/48""#, r#""sites":{"1":[]}"#, r#""groups":{"a":[]}"#] {
        assert_eq!(
            refusal(&format!(r#"{{"subscribe":true,{extra}}}"#)),
            "`subscribe` takes the published table; drop `ula`, `sites` and `groups`"
        );
    }
}

#[test]
fn a_pool_hands_the_same_table_out_again() {
    let mut pool = TablePool::default();
    let one = raw::read(r#"{"ula":"fd00:dead:beef::/48","allow":["!1"]}"#).unwrap();
    let two = raw::read(r#"{"allow":["!2"],"ula":"fd00:dead:beef::/48"}"#).unwrap();
    let three = raw::read(r#"{"ula":"fd00:dead:bee0::/48"}"#).unwrap();
    let a = pool.intern(&one).unwrap();
    let b = pool.intern(&two).unwrap();
    let c = pool.intern(&three).unwrap();
    assert!(Arc::ptr_eq(&a, &b) && !Arc::ptr_eq(&a, &c));
    // What came between them makes no difference.
    assert!(Arc::ptr_eq(&a, &pool.intern(&one).unwrap()));
    // Nor does the order in which the parts are written.
    let this = r#"{"ula":"fd00:dead:beef::/48","groups":{"a":["!1"],"b":[]}}"#;
    let that = r#"{"groups":{"b":[],"a":["!1"]},"ula":"fd00:dead:beef::/48","allow":["@a"]}"#;
    let x = pool.parse(this).unwrap();
    let y = pool.parse(that).unwrap();
    assert!(Arc::ptr_eq(&x.table, &y.table));
    assert!(!y.allow.is_empty() && x.allow.is_empty());
    // A subscriber has none of them.
    let s = pool.parse(r#"{"subscribe":true}"#).unwrap();
    assert!(s.scheme().is_none() && s.table.groups.resolve(&["@a".to_string()]) == ["@a"]);
    assert_eq!(
        pool.intern(&raw::read(r#"{"ula":"fd00::/56"}"#).unwrap()).unwrap_err(),
        "prefix must be /48"
    );
}
