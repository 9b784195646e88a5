//! Which config each filter takes. Each name is a position in a chain, and takes
//! exactly one config shape:
//!
//!   ppv2_auth   parse the header, synthesize, enforce a flat allowlist   `allow` (+ table)
//!   ppv2        parse the header, synthesize, label and drain only       table
//!   auth        read the label, scope by SNI, enforce                    `scopes` (+ table)
//!   table       carry the identity table for every subscriber            `ula` + `sites` + `groups`

use crate::config::{
    fails_with, nameless, parses_to, pooled, raw_scopes, shares, Config, TablePool,
};
use crate::text::{
    chars_of, concat, is_white, law_trimming_keeps_the_core, quote, quoted, same, trim, trimmed,
};
use vstd::prelude::*;
use vstd::utf8::{decode_utf8, encode_utf8, encode_utf8_decode_utf8, valid_utf8};

verus! {

/// The filters, by their names.
#[derive(Debug, Clone, Copy, PartialEq, Eq)]
pub enum Filter {
    Ppv2Auth,
    Ppv2,
    Auth,
    Table,
}

impl Filter {
    /// The filter judges what it has labelled, rather than leaving that to another.
    pub fn enforces(&self) -> (r: bool)
        ensures
            r == (*self == Filter::Ppv2Auth),
    {
        match self {
            Filter::Ppv2Auth => true,
            _ => false,
        }
    }

    /// The filter's table is for all subscribers of the process.
    pub fn publishes(&self) -> (r: bool)
        ensures
            r == (*self == Filter::Table),
    {
        match self {
            Filter::Table => true,
            _ => false,
        }
    }
}

/// A header can be encoded by what the config itself brings.
pub open spec fn has_scheme(c: Config) -> bool {
    c.table@.scheme is Some
}

/// The config has rules of its own.
pub open spec fn has_rules(c: Config) -> bool {
    c.raw_allow@.len() > 0 || c.raw_scopes is Some
}

pub open spec fn ppv2_error(c: Config) -> Option<Seq<char>> {
    if !c.subscribe && !has_scheme(c) {
        Some("`ppv2` needs `ula` to synthesize an identity"@)
    } else if has_rules(c) {
        Some("`ppv2` takes only `ula`; use `ppv2_auth` to also enforce"@)
    } else {
        None
    }
}

pub open spec fn ppv2_auth_error(c: Config) -> Option<Seq<char>> {
    if !c.subscribe && !has_scheme(c) {
        Some("`ppv2_auth` needs `ula` to synthesize an identity"@)
    } else if c.raw_scopes is Some {
        Some("`ppv2_auth` runs before tls_inspector, so there is no SNI yet; use `auth`"@)
    } else {
        None
    }
}

pub open spec fn table_error(c: Config) -> Option<Seq<char>> {
    if !has_scheme(c) {
        Some("`table` needs `ula`; carrying an empty table would deny every slim filter"@)
    } else if has_rules(c) {
        Some(
            "`table` carries identity, not rules; put `allow`/`scopes` on the enforcing filters"@,
        )
    } else {
        None
    }
}

pub open spec fn auth_error(c: Config) -> Option<Seq<char>> {
    if c.raw_scopes is None {
        Some("`auth` needs `scopes`"@)
    } else if c.raw_allow@.len() > 0 {
        Some("`auth` ignores a top-level `allow`; put those rules in a scope"@)
    } else if nameless(raw_scopes(c.raw_scopes)) {
        Some("a scope needs at least one `sni`"@)
    } else {
        None
    }
}

/// What a filter has against a config.
pub open spec fn filter_error(filter: Filter, c: Config) -> Option<Seq<char>> {
    match filter {
        Filter::Ppv2Auth => ppv2_auth_error(c),
        Filter::Ppv2 => ppv2_error(c),
        Filter::Auth => auth_error(c),
        Filter::Table => table_error(c),
    }
}

/// `r` says what the error is, or that there is none.
pub open spec fn says(r: Result<(), &'static str>, error: Option<Seq<char>>) -> bool {
    match r {
        Ok(_) => error is None,
        Err(e) => error == Some(e@),
    }
}

/// `ppv2` only labels and drains; a rule here would read as applied and do nothing.
/// A subscriber is legal: the published table synthesizes, and until a carrier lands
/// every connection is refused.
pub fn validate_ppv2(cfg: &Config) -> (r: Result<(), &'static str>)
    ensures
        says(r, ppv2_error(*cfg)),
{
    if cfg.carries_table() && cfg.scheme().is_none() {
        return Err("`ppv2` needs `ula` to synthesize an identity");
    }
    if cfg.has_allow() || cfg.has_scopes() {
        return Err("`ppv2` takes only `ula`; use `ppv2_auth` to also enforce");
    }
    Ok(())
}

/// `ppv2_auth`: the whole job in one filter (TCP and UDP); empty `allow` is deny-all.
pub fn validate_ppv2_auth(cfg: &Config) -> (r: Result<(), &'static str>)
    ensures
        says(r, ppv2_auth_error(*cfg)),
{
    if cfg.carries_table() && cfg.scheme().is_none() {
        return Err("`ppv2_auth` needs `ula` to synthesize an identity");
    }
    if cfg.has_scopes() {
        return Err("`ppv2_auth` runs before tls_inspector, so there is no SNI yet; use `auth`");
    }
    Ok(())
}

/// `table` carries identity for every subscriber, and nothing else: no rules -- it
/// enforces nothing -- and it must actually have a table to carry.
pub fn validate_table(cfg: &Config) -> (r: Result<(), &'static str>)
    ensures
        says(r, table_error(*cfg)),
{
    if cfg.scheme().is_none() {
        return Err("`table` needs `ula`; carrying an empty table would deny every slim filter");
    }
    if cfg.has_allow() || cfg.has_scopes() {
        return Err(
            "`table` carries identity, not rules; put `allow`/`scopes` on the enforcing filters",
        );
    }
    Ok(())
}

/// `auth` reads the label a preceding `ppv2` filter left, and scopes it by SNI. A
/// table is legal here -- members need it to ENCODE the way the wire does; its filter
/// path never parses a header.
pub fn validate_auth(cfg: &Config) -> (r: Result<(), &'static str>)
    ensures
        says(r, auth_error(*cfg)),
{
    if !cfg.has_scopes() {
        return Err("`auth` needs `scopes`");
    }
    // Never consulted once scopes exist -- it would read as applied and do nothing.
    if cfg.has_allow() {
        return Err("`auth` ignores a top-level `allow`; put those rules in a scope");
    }
    // A nameless scope can never match: dead config, likely a tenant's mistake.
    if cfg.has_nameless_scope() {
        return Err("a scope needs at least one `sni`");
    }
    Ok(())
}

/// Check a config for a filter.
pub fn validate(filter: Filter, cfg: &Config) -> (r: Result<(), &'static str>)
    ensures
        says(r, filter_error(filter, *cfg)),
{
    match filter {
        Filter::Ppv2Auth => validate_ppv2_auth(cfg),
        Filter::Ppv2 => validate_ppv2(cfg),
        Filter::Auth => validate_auth(cfg),
        Filter::Table => validate_table(cfg),
    }
}

// --- loading ------------------------------------------------------------------

/// The filter that a name stands for on a TCP listener.
pub open spec fn tcp_filter_of(name: Seq<char>) -> Option<Filter> {
    if name == "ppv2_auth"@ {
        Some(Filter::Ppv2Auth)
    } else if name == "ppv2"@ {
        Some(Filter::Ppv2)
    } else if name == "auth"@ {
        Some(Filter::Auth)
    } else if name == "table"@ {
        Some(Filter::Table)
    } else {
        None
    }
}

/// The filter that a name stands for on a UDP listener: there is no way to hand an
/// identity onward, so enforcement is one filter.
pub open spec fn udp_filter_of(name: Seq<char>) -> Option<Filter> {
    if name == "ppv2_auth"@ {
        Some(Filter::Ppv2Auth)
    } else if name == "table"@ {
        Some(Filter::Table)
    } else {
        None
    }
}

pub open spec fn unknown_tcp_text(quoted_name: Seq<char>) -> Seq<char> {
    "unknown filter_name "@ + quoted_name + "; expected ppv2_auth, ppv2, auth or table"@
}

pub open spec fn unknown_udp_text(quoted_name: Seq<char>) -> Seq<char> {
    "UDP supports only filter_name ppv2_auth or table, got "@ + quoted_name
}

/// One shared object exposes several filters, told apart by name.
pub fn tcp_filter(name: &str) -> (r: Result<Filter, String>)
    ensures
        match r {
            Ok(f) => tcp_filter_of(name@) == Some(f),
            Err(e) => tcp_filter_of(name@) is None && e@ == unknown_tcp_text(quoted(name@)),
        },
{
    if same(name, "ppv2_auth") {
        Ok(Filter::Ppv2Auth)
    } else if same(name, "ppv2") {
        Ok(Filter::Ppv2)
    } else if same(name, "auth") {
        Ok(Filter::Auth)
    } else if same(name, "table") {
        Ok(Filter::Table)
    } else {
        let front = concat("unknown filter_name ", &quote(name));
        Err(concat(&front, "; expected ppv2_auth, ppv2, auth or table"))
    }
}

pub fn udp_filter(name: &str) -> (r: Result<Filter, String>)
    ensures
        match r {
            Ok(f) => udp_filter_of(name@) == Some(f),
            Err(e) => udp_filter_of(name@) is None && e@ == unknown_udp_text(quoted(name@)),
        },
{
    if same(name, "ppv2_auth") {
        Ok(Filter::Ppv2Auth)
    } else if same(name, "table") {
        Ok(Filter::Table)
    } else {
        Err(concat("UDP supports only filter_name ppv2_auth or table, got ", &quote(name)))
    }
}

/// `std::str::from_utf8`: the string of the bytes where they are valid UTF-8, and
/// nothing where they are not.
#[verifier::external_body]
fn utf8<'a>(bytes: &'a [u8]) -> (r: Option<&'a str>)
    ensures
        r is Some <==> valid_utf8(bytes@),
        r matches Some(s) ==> encode_utf8(s@) == bytes@,
{
    std::str::from_utf8(bytes).ok()
}

/// Parse a config for a filter, sharing its table with the configs before it, and
/// check that the filter takes it.
pub fn load_text(pool: &mut TablePool, text: &str, filter: Filter) -> (r: Result<Config, String>)
    ensures
        if trimmed(text@).len() == 0 {
            final(pool)@ == old(pool)@
        } else {
            pooled(old(pool)@, final(pool)@, text@)
        },
        match r {
            Ok(c) => {
                &&& trimmed(text@).len() > 0
                &&& parses_to(text@, c)
                &&& shares(final(pool)@, text@, c)
                &&& filter_error(filter, c) is None
            },
            Err(e) => text_fails(text@, filter, e@),
        },
{
    let chars = chars_of(text);
    // An absent filter_config arrives as ""; a parser's EOF error helps nobody.
    if trim(&chars).len() == 0 {
        return Err(String::from_str("filter_config is missing"));
    }
    match pool.parse(text) {
        Ok(c) => {
            match validate(filter, &c) {
                Ok(_) => Ok(c),
                Err(e) => {
                    assert(parses_to(text@, c));
                    Err(String::from_str(e))
                },
            }
        },
        Err(e) => Err(e),
    }
}

/// Why a text is no config for the filter.
pub open spec fn text_fails(text: Seq<char>, filter: Filter, e: Seq<char>) -> bool {
    if trimmed(text).len() == 0 {
        e == "filter_config is missing"@
    } else {
        ||| fails_with(text, e)
        ||| exists|c: Config| #[trigger] parses_to(text, c) && filter_error(filter, c) == Some(e)
    }
}

/// Load a filter's config from the bytes that the host hands over.
pub fn load(pool: &mut TablePool, bytes: &[u8], filter: Filter) -> (r: Result<Config, String>)
    ensures
        if !valid_utf8(bytes@) || trimmed(decode_utf8(bytes@)).len() == 0 {
            final(pool)@ == old(pool)@
        } else {
            pooled(old(pool)@, final(pool)@, decode_utf8(bytes@))
        },
        match r {
            Ok(c) => {
                &&& valid_utf8(bytes@)
                &&& trimmed(decode_utf8(bytes@)).len() > 0
                &&& parses_to(decode_utf8(bytes@), c)
                &&& shares(final(pool)@, decode_utf8(bytes@), c)
                &&& filter_error(filter, c) is None
            },
            Err(e) => if valid_utf8(bytes@) {
                text_fails(decode_utf8(bytes@), filter, e@)
            } else {
                e@ == "filter_config is not valid UTF-8"@
            },
        },
{
    match utf8(bytes) {
        None => Err(String::from_str("filter_config is not valid UTF-8")),
        Some(text) => {
            proof {
                encode_utf8_decode_utf8(text@);
            }
            load_text(pool, text, filter)
        },
    }
}

// --- laws ---------------------------------------------------------------------

/// Which configs a filter takes. Those that synthesize take a table of their own or
/// subscribe; those that do not judge take no rules; `auth` takes scopes that all have a
/// name, and no flat list.
pub proof fn law_filters_take_their_own_configs(c: Config)
    ensures
        filter_error(Filter::Ppv2, c) is None <==> (c.subscribe || c.table@.scheme is Some)
            && c.raw_allow@.len() == 0 && c.raw_scopes is None,
        filter_error(Filter::Ppv2Auth, c) is None <==> (c.subscribe || c.table@.scheme is Some)
            && c.raw_scopes is None,
        filter_error(Filter::Table, c) is None <==> c.table@.scheme is Some && c.raw_allow@.len()
            == 0 && c.raw_scopes is None,
        filter_error(Filter::Auth, c) is None <==> c.raw_allow@.len() == 0 && (raw_scopes(
            c.raw_scopes,
        ) matches Some(rs) && forall|i: int| 0 <= i < rs.len() ==> (#[trigger] rs[i]).sni.len() > 0),
{
}

/// A config that `ppv2` takes, `ppv2_auth` takes too, and `auth` takes none that either
/// of them does.
pub proof fn law_rules_tell_the_filters_apart(c: Config)
    ensures
        filter_error(Filter::Ppv2, c) is None ==> filter_error(Filter::Ppv2Auth, c) is None,
        filter_error(Filter::Table, c) is None ==> filter_error(Filter::Ppv2, c) is None,
        filter_error(Filter::Auth, c) is None ==> filter_error(Filter::Ppv2, c) is Some
            && filter_error(Filter::Ppv2Auth, c) is Some && filter_error(Filter::Table, c) is Some,
{
}

/// Each filter has one name, and nothing else names it. On UDP there are two of them,
/// under the names that they have on TCP.
pub proof fn law_each_filter_has_one_name(name: Seq<char>)
    ensures
        tcp_filter_of(name) == Some(Filter::Ppv2Auth) <==> name == seq![
            'p',
            'p',
            'v',
            '2',
            '_',
            'a',
            'u',
            't',
            'h',
        ],
        tcp_filter_of(name) == Some(Filter::Ppv2) <==> name == seq!['p', 'p', 'v', '2'],
        tcp_filter_of(name) == Some(Filter::Auth) <==> name == seq!['a', 'u', 't', 'h'],
        tcp_filter_of(name) == Some(Filter::Table) <==> name == seq!['t', 'a', 'b', 'l', 'e'],
        udp_filter_of(name) == match tcp_filter_of(name) {
            Some(Filter::Ppv2Auth) => Some(Filter::Ppv2Auth),
            Some(Filter::Table) => Some(Filter::Table),
            _ => None,
        },
{
    reveal_strlit("ppv2_auth");
    reveal_strlit("ppv2");
    reveal_strlit("auth");
    reveal_strlit("table");
    assert("ppv2_auth"@ =~= seq!['p', 'p', 'v', '2', '_', 'a', 'u', 't', 'h']);
    assert("ppv2"@ =~= seq!['p', 'p', 'v', '2']);
    assert("auth"@ =~= seq!['a', 'u', 't', 'h']);
    assert("table"@ =~= seq!['t', 'a', 'b', 'l', 'e']);
    assert("ppv2"@[0] != "auth"@[0]);
}

/// A text of white space alone is a missing config, and no other is.
pub proof fn law_blank_text_is_a_missing_config(text: Seq<char>, filter: Filter, e: Seq<char>)
    requires
        forall|i: int| 0 <= i < text.len() ==> is_white(#[trigger] text[i]),
    ensures
        text_fails(text, filter, e) <==> e == "filter_config is missing"@,
{
    let none: Seq<char> = seq![];
    law_trimming_keeps_the_core(text, none, none);
    assert(text + none + none =~= text);
}

/// Why a filter does not take a config: the first of its reasons that holds.
pub proof fn law_refused_configs_say_why(c: Config)
    ensures
        filter_error(Filter::Ppv2, c) == Some("`ppv2` needs `ula` to synthesize an identity"@)
            <==> !c.subscribe && c.table@.scheme is None,
        c.subscribe || c.table@.scheme is Some ==> {
            let e = filter_error(Filter::Ppv2, c);
            e is Some ==> e == Some("`ppv2` takes only `ula`; use `ppv2_auth` to also enforce"@)
        },
        !c.subscribe && c.table@.scheme is None ==> filter_error(Filter::Ppv2Auth, c) == Some(
            "`ppv2_auth` needs `ula` to synthesize an identity"@,
        ),
        (c.subscribe || c.table@.scheme is Some) && c.raw_scopes is Some ==> filter_error(
            Filter::Ppv2Auth,
            c,
        ) == Some(
            "`ppv2_auth` runs before tls_inspector, so there is no SNI yet; use `auth`"@,
        ),
        c.table@.scheme is None ==> filter_error(Filter::Table, c) == Some(
            "`table` needs `ula`; carrying an empty table would deny every slim filter"@,
        ),
        c.table@.scheme is Some && (c.raw_allow@.len() > 0 || c.raw_scopes is Some) ==> filter_error(
            Filter::Table,
            c,
        ) == Some(
            "`table` carries identity, not rules; put `allow`/`scopes` on the enforcing filters"@,
        ),
        c.raw_scopes is None ==> filter_error(Filter::Auth, c) == Some("`auth` needs `scopes`"@),
        c.raw_scopes is Some && c.raw_allow@.len() > 0 ==> filter_error(Filter::Auth, c) == Some(
            "`auth` ignores a top-level `allow`; put those rules in a scope"@,
        ),
        c.raw_scopes is Some && c.raw_allow@.len() == 0 && filter_error(Filter::Auth, c) is Some
            ==> filter_error(Filter::Auth, c) == Some("a scope needs at least one `sni`"@),
{
    reveal_strlit("`ppv2` needs `ula` to synthesize an identity");
    reveal_strlit("`ppv2` takes only `ula`; use `ppv2_auth` to also enforce");
    assert("`ppv2` needs `ula` to synthesize an identity"@[7] == 'n');
    assert("`ppv2` takes only `ula`; use `ppv2_auth` to also enforce"@[7] == 't');
}

/// A name that no filter has is told what the names are.
pub proof fn law_unknown_names_are_told_the_known(q: Seq<char>)
    ensures
        unknown_tcp_text(q) == "unknown filter_name "@ + q
            + "; expected ppv2_auth, ppv2, auth or table"@,
        unknown_udp_text(q) == "UDP supports only filter_name ppv2_auth or table, got "@ + q,
{
}

} // verus!
