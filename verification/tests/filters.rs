//! The filters, against a host that records what it is asked to do.
//!
//! These are what actually decides whether traffic is admitted: every case here is
//! an enforcement path, not a parse.

use ppv2_auth::ppv2::{AWS_SUBTYPE_VPCE_ID, SIGNATURE, TLV_AWS};
use ppv2_auth::stats::{Counted, CounterId};
use ppv2_auth::tcp::{AuthFilter, Ppv2Filter, Status, Step};
use ppv2_auth::{config, tcp, udp};
use std::sync::Arc;

/// Version 2 + PROXY.
const V2_PROXY: u8 = 0x21;

const ULA: &str = r#""ula":"fd00:dead:beef::/48""#;
/// sha256("vpce-0123456789abcdef0")[..4] plus the client 10.0.1.28.
const TENANT: &str = r#""allow":["fd00:dead:beef:1:7b53:e75b:a00:11c/128"]"#;

fn build(ver_cmd: u8, fam: u8, src: &[u8], vpce: Option<&[u8]>) -> Vec<u8> {
    let addr_len = if fam >> 4 == 0x2 { 36 } else { 12 };
    let mut body = vec![0u8; addr_len];
    let n = src.len().min(addr_len);
    body[..n].copy_from_slice(&src[..n]);
    if let Some(v) = vpce {
        body.push(TLV_AWS);
        body.extend_from_slice(&((1 + v.len()) as u16).to_be_bytes());
        body.push(AWS_SUBTYPE_VPCE_ID);
        body.extend_from_slice(v);
    }
    let mut out = Vec::new();
    out.extend_from_slice(&SIGNATURE);
    out.push(ver_cmd);
    out.push(fam);
    out.extend_from_slice(&(body.len() as u16).to_be_bytes());
    out.extend_from_slice(&body);
    out
}

fn ppv2_config(text: &str) -> tcp::Ppv2Config {
    tcp::Ppv2Config::labelling(
        Arc::new(config::parse(text).unwrap()),
        tcp::Counters::default(),
    )
}

fn ppv2_auth_config(text: &str) -> tcp::Ppv2Config {
    tcp::Ppv2Config::enforcing(
        Arc::new(config::parse(text).unwrap()),
        tcp::Counters::default(),
    )
}

fn auth_config(text: &str) -> tcp::AuthConfig {
    tcp::AuthConfig {
        cfg: Arc::new(config::parse(text).unwrap()),
        counters: tcp::Counters::default(),
    }
}

fn udp_config(text: &str) -> udp::Ppv2AuthConfig {
    udp::Ppv2AuthConfig {
        cfg: Arc::new(config::parse(text).unwrap()),
        counters: udp::Counters::default(),
    }
}

/// A host that accepts every label, and records what it is asked to do.
#[derive(Default)]
struct Host {
    /// Reasons given, each with a closed socket.
    refused: Vec<&'static str>,
    counted: Vec<CounterId>,
    remote: Vec<(String, u32)>,
    metadata: Vec<(&'static str, String)>,
    drained: Vec<usize>,
}

impl Host {
    fn refuse(&mut self, counters: &tcp::Counters, step: &Step) {
        if let Step::Refuse(reason) = step {
            self.refused.push(reason.as_str());
            if let Some(id) = counters.of(reason.counted()) {
                self.counted.push(id);
            }
        }
    }

    fn on_data(&mut self, fc: &tcp::Ppv2Config, f: &mut Ppv2Filter, buf: &[u8]) -> Status {
        let mut step = f.on_data(None, buf);
        if let Step::Label(label) = step {
            self.remote
                .push((label.text.as_str().to_string(), label.port));
            let vpce = label.vpce_text();
            self.metadata.push(("vpce_id", vpce));
            self.metadata.push(("src", label.src.as_str().to_string()));
            self.drained.push(label.len);
            step = f.labelled(&label, true);
        }
        self.refuse(&fc.counters, &step);
        step.status()
    }

    fn on_accept(
        &mut self,
        fc: &tcp::AuthConfig,
        f: &mut AuthFilter,
        addr: Option<&str>,
        sni: &[u8],
    ) -> Status {
        let step = f.on_accept(addr, sni);
        self.refuse(&fc.counters, &step);
        step.status()
    }
}

/// What a datagram comes to, and what is forwarded of it.
fn datagram(fc: &udp::Ppv2AuthConfig, chunks: &[&[u8]]) -> (Status, Option<Vec<u8>>, Vec<CounterId>) {
    let mut f = fc.new_filter();
    let decision = f.on_data(None, chunks);
    match decision {
        udp::Decision::Forward => (
            f.status(decision, true),
            Some(f.payload().clone()),
            Vec::new(),
        ),
        udp::Decision::Deny(what) => (
            f.status(decision, true),
            None,
            fc.counters.of(what).into_iter().collect(),
        ),
    }
}

// --- TCP -------------------------------------------------------------------

#[test]
fn a_refused_connection_is_not_admitted_by_a_later_on_data() {
    // StopIteration means "wait for more data", not "reject", so the host calls
    // on_data again as bytes arrive: a short non-PPv2 prefix, then more bytes.
    let fc = ppv2_config(&format!("{{{ULA}}}"));
    let mut host = Host::default();
    let mut f = fc.new_filter();
    assert_eq!(host.on_data(&fc, &mut f, b"GET "), Status::StopIteration);
    // The second call must not admit.
    assert_eq!(host.on_data(&fc, &mut f, b"GET "), Status::StopIteration);
    assert_eq!(host.on_data(&fc, &mut f, b"GET "), Status::StopIteration);
    // The actual reject mechanism fires exactly once.
    assert_eq!(host.refused, ["not_proxy_protocol"]);
}

#[test]
fn non_ppv2_traffic_is_refused_unconditionally() {
    // A client without a header reached the listener directly. Holds for the
    // label-only filter too, not just the enforcing one.
    for fc in [
        ppv2_config(&format!("{{{ULA}}}")),
        ppv2_auth_config(&format!("{{{ULA}}}")),
    ] {
        let mut host = Host::default();
        let mut f = fc.new_filter();
        assert_eq!(
            host.on_data(&fc, &mut f, b"GET / HTTP/1.1\r\n\r\n"),
            Status::StopIteration
        );
        assert_eq!(host.refused.len(), 1);
    }
}

#[test]
fn ppv2_auth_enforces_the_flat_list_after_labelling() {
    // The `enforce` half of ppv2_auth: same parse and label as ppv2, then the
    // identity must be covered or the socket closes.
    let listed = build(
        V2_PROXY,
        0x11,
        &[10, 0, 1, 28],
        Some(b"vpce-0123456789abcdef0"),
    );
    let unlisted = build(
        V2_PROXY,
        0x11,
        &[10, 0, 1, 28],
        Some(b"vpce-somebody-else"),
    );

    let fc = ppv2_auth_config(&format!("{{{ULA},{TENANT}}}"));
    let mut host = Host::default();
    let mut f = fc.new_filter();
    assert_eq!(host.on_data(&fc, &mut f, &listed), Status::Continue);
    assert!(host.refused.is_empty());

    let fc = ppv2_auth_config(&format!("{{{ULA},{TENANT}}}"));
    let mut host = Host::default();
    let mut f = fc.new_filter();
    assert_eq!(host.on_data(&fc, &mut f, &unlisted), Status::StopIteration);
    // Still labelled, attributed and stripped, so the access log shows what was
    // judged AND who it was -- a refused connection is the case where knowing
    // that matters most.
    assert_eq!(host.remote.len(), 1);
    assert_eq!(
        host.metadata,
        [
            ("vpce_id", "vpce-somebody-else".to_string()),
            ("src", "10.0.1.28".to_string())
        ]
    );
    assert_eq!(host.drained, [unlisted.len()]);
    assert_eq!(host.refused, ["denied_by_allowlist"]);
}

#[test]
fn a_tenant_header_is_labelled_with_the_synthesized_address_and_drained() {
    let hdr = build(
        V2_PROXY,
        0x11,
        &[10, 0, 1, 28],
        Some(b"vpce-0123456789abcdef0"),
    );
    let fc = ppv2_config(&format!("{{{ULA}}}"));
    let mut host = Host::default();
    let mut f = fc.new_filter();
    assert_eq!(host.on_data(&fc, &mut f, &hdr), Status::Continue);
    assert_eq!(
        host.remote,
        [("fd00:dead:beef:1:7b53:e75b:a00:11c".to_string(), 0)]
    );
    // What the load balancer attested, for the access log.
    assert_eq!(
        host.metadata,
        [
            ("vpce_id", "vpce-0123456789abcdef0".to_string()),
            ("src", "10.0.1.28".to_string())
        ]
    );
    // The whole header is stripped, so the backend sees only its own protocol.
    assert_eq!(host.drained, [hdr.len()]);
}

#[test]
fn a_partial_header_asks_for_the_total_not_the_remainder() {
    // The host peeks and never consumes, so max_read_bytes is counted from the
    // first byte of the connection.
    let full = build(V2_PROXY, 0x11, &[10, 0, 1, 28], Some(b"vpce-abc"));
    let total = full.len();

    let fc = ppv2_config(&format!("{{{ULA}}}"));
    let mut host = Host::default();
    let mut f = fc.new_filter();
    assert_eq!(
        host.on_data(&fc, &mut f, &full[..16]),
        Status::StopIteration
    );
    assert_eq!(f.max_read_bytes(), total);
}

// --- UDP -------------------------------------------------------------------

#[test]
fn a_datagram_outside_the_allowlist_is_dropped() {
    let dg = build(
        V2_PROXY,
        0x12,
        &[10, 0, 1, 28],
        Some(b"vpce-somebody-else"),
    );
    let fc = udp_config(&format!("{{{ULA},{TENANT}}}"));
    let (status, forwarded, _) = datagram(&fc, &[&dg]);
    assert_eq!(status, Status::StopIteration);
    assert!(forwarded.is_none());
}

#[test]
fn an_allowed_datagram_is_stripped_and_forwarded() {
    let payload = b"\x12\x34hello dns";
    let mut dg = build(
        V2_PROXY,
        0x12,
        &[10, 0, 1, 28],
        Some(b"vpce-0123456789abcdef0"),
    );
    let hdr_len = dg.len();
    dg.extend_from_slice(payload);

    let fc = udp_config(&format!("{{{ULA},{TENANT}}}"));
    let (status, forwarded, _) = datagram(&fc, &[&dg]);
    assert_eq!(status, Status::Continue);
    // Only the payload survives -- the PPv2 header is not forwarded.
    assert_eq!(forwarded.unwrap(), dg[hdr_len..].to_vec());
}

#[test]
fn non_ppv2_datagrams_are_dropped_unconditionally() {
    // Short, and well-formed-but-not-PPv2: both are just "no header", and a
    // datagram without a header reached the listener directly.
    for dg in [
        &b"\x0d\x0a\x0d\x0a\x00\x0d"[..],
        &b"GET / HTTP/1.1\r\n\r\n"[..],
    ] {
        let fc = udp_config(&format!("{{{ULA}}}"));
        let (status, forwarded, _) = datagram(&fc, &[dg]);
        assert_eq!(status, Status::StopIteration);
        assert!(forwarded.is_none());
    }
}

#[test]
fn an_empty_allowlist_denies_a_well_formed_tenant() {
    // Security-group semantics all the way through the filter, not just the set.
    let dg = build(
        V2_PROXY,
        0x12,
        &[10, 0, 1, 28],
        Some(b"vpce-0123456789abcdef0"),
    );
    let fc = udp_config(&format!("{{{ULA}}}"));
    let (status, forwarded, _) = datagram(&fc, &[&dg]);
    assert_eq!(status, Status::StopIteration);
    assert!(forwarded.is_none());
}

// --- auth ------------------------------------------------------------------

const SCOPED: &str =
    r#"{"scopes":[{"sni":["l7.mgmt.test"],"allow":["fd00:dead:beef:1:7b53:e75b:a00:11c/128"]}]}"#;

/// The TLS chain: `ppv2` already labelled the socket, tls_inspector already set the
/// SNI, so `auth` reads both back and needs no bytes of its own.
fn accept(addr: Option<&str>, sni: &[u8]) -> (Status, Host, AuthFilter) {
    let fc = auth_config(SCOPED);
    let mut host = Host::default();
    let mut f = fc.new_filter();
    let status = host.on_accept(&fc, &mut f, addr, sni);
    (status, host, f)
}

#[test]
fn auth_admits_a_listed_identity_on_a_matching_sni() {
    let (status, host, f) = accept(Some("fd00:dead:beef:1:7b53:e75b:a00:11c"), b"l7.mgmt.test");
    assert_eq!(status, Status::Continue);
    assert!(host.refused.is_empty());
    // No bytes wanted: the host skips on_data entirely.
    assert_eq!(f.max_read_bytes(), 0);
}

#[test]
fn auth_denies_an_sni_that_no_scope_claims() {
    // The headline rule: no match is a deny, even for an otherwise valid tenant.
    let (status, host, _) = accept(
        Some("fd00:dead:beef:1:7b53:e75b:a00:11c"),
        b"other.mgmt.test",
    );
    assert_eq!(status, Status::StopIteration);
    assert_eq!(host.refused.len(), 1);
}

#[test]
fn auth_denies_an_unlisted_identity_on_a_matching_sni() {
    let (status, host, _) = accept(
        Some("fd00:dead:beef:1:ffff:ffff:ffff:ffff"),
        b"l7.mgmt.test",
    );
    assert_eq!(status, Status::StopIteration);
    assert_eq!(host.refused.len(), 1);
}

#[test]
fn auth_denies_when_there_is_no_sni_at_all() {
    // A plaintext connection, or tls_inspector missing from the chain. Fail closed.
    let (status, host, _) = accept(Some("fd00:dead:beef:1:7b53:e75b:a00:11c"), b"");
    assert_eq!(status, Status::StopIteration);
    assert_eq!(host.refused.len(), 1);
}

#[test]
fn auth_denies_when_no_preceding_filter_labelled_the_socket() {
    // Without a `ppv2` filter ahead of it there is no identity to judge.
    let (status, host, _) = accept(None, b"l7.mgmt.test");
    assert_eq!(status, Status::StopIteration);
    assert_eq!(host.refused, ["no_identity_label"]);
}

#[test]
fn auth_never_reads_bytes() {
    // The scopes filter decides everything in on_accept; max_read_bytes 0 makes the
    // host bypass on_data entirely.
    let (status, host, f) = accept(Some("fd00:dead:beef:1:7b53:e75b:a00:11c"), b"l7.mgmt.test");
    assert_eq!(status, Status::Continue);
    assert!(host.refused.is_empty());
    assert_eq!(f.max_read_bytes(), 0);
}

// --- observability -----------------------------------------------------------

#[test]
fn refusals_carry_a_failure_reason_and_bump_the_denied_counter() {
    // The reason is the only "why" the listener access log gets; the counter is
    // the only signal at all on UDP.
    let fc = tcp::AuthConfig {
        cfg: Arc::new(config::parse(SCOPED).unwrap()),
        counters: tcp::Counters {
            denied: Some(CounterId(7)),
            ..Default::default()
        },
    };
    let mut host = Host::default();
    let mut f = fc.new_filter();
    let status = host.on_accept(
        &fc,
        &mut f,
        Some("fd00:dead:beef:1:ffff::1"),
        b"l7.mgmt.test",
    );
    assert_eq!(status, Status::StopIteration);
    assert_eq!(host.refused, ["denied_by_allowlist"]);
    assert_eq!(host.counted, [CounterId(7)]);
}

#[test]
fn non_ppv2_refusal_says_so_and_counts_separately() {
    let fc = tcp::Ppv2Config::enforcing(
        Arc::new(config::parse(&format!("{{{ULA}}}")).unwrap()),
        tcp::Counters {
            not_ppv2: Some(CounterId(9)),
            ..Default::default()
        },
    );
    let mut host = Host::default();
    let mut f = fc.new_filter();
    assert_eq!(
        host.on_data(&fc, &mut f, b"GET / HTTP/1.1\r\n\r\n"),
        Status::StopIteration
    );
    assert_eq!(host.refused, ["not_proxy_protocol"]);
    assert_eq!(host.counted, [CounterId(9)]);
}

#[test]
fn udp_denials_bump_the_only_signal_udp_has() {
    // No session, no access log, no failure reason on UDP -- the counter is it.
    let dg = build(
        V2_PROXY,
        0x12,
        &[10, 0, 1, 28],
        Some(b"vpce-somebody-else"),
    );
    let fc = udp::Ppv2AuthConfig {
        cfg: Arc::new(config::parse(&format!("{{{ULA},{TENANT}}}")).unwrap()),
        counters: udp::Counters {
            denied: Some(CounterId(3)),
            ..Default::default()
        },
    };
    let (status, forwarded, counted) = datagram(&fc, &[&dg]);
    assert_eq!(status, Status::StopIteration);
    assert!(forwarded.is_none());
    assert_eq!(counted, [CounterId(3)]);
}

#[test]
fn counter_names_are_prefixed_with_the_filter_name() {
    // All filters on a listener share one metrics_namespace, so unprefixed names
    // from ppv2 and auth on the same TLS listener would merge into a single
    // meaningless stat.
    let mut names = Vec::new();
    let c = ppv2_auth::stats::Counters::register("auth", |n| {
        names.push(n.to_string());
        None
    });
    assert_eq!(names, ["auth_allowed", "auth_denied", "auth_not_ppv2"]);
    assert!(c.allowed.is_none() && c.denied.is_none() && c.not_ppv2.is_none());
}

// --- more of the state machines ----------------------------------------------

#[test]
fn registered_counters_are_found_by_what_they_count() {
    let mut next = 0;
    let c = ppv2_auth::stats::Counters::register("ppv2", |_| {
        next += 1;
        Some(CounterId(next))
    });
    assert_eq!(c.of(Counted::Allowed), Some(CounterId(1)));
    assert_eq!(c.of(Counted::Denied), Some(CounterId(2)));
    assert_eq!(c.of(Counted::NotPpv2), Some(CounterId(3)));
}

#[test]
fn a_rejected_label_refuses_for_good() {
    let hdr = build(V2_PROXY, 0x11, &[10, 0, 1, 28], None);
    let fc = ppv2_config(&format!("{{{ULA}}}"));
    let mut f = fc.new_filter();
    let label = match f.on_data(None, &hdr) {
        Step::Label(label) => label,
        other => panic!("{other:?}"),
    };
    assert_eq!(label.text.as_str(), "fd00:dead:beef:4::a00:11c");
    let step = f.labelled(&label, false);
    assert!(matches!(
        step,
        Step::Refuse(tcp::Reason::SetRemoteAddressFailed)
    ));
    assert!(matches!(f.on_data(None, &hdr), Step::Wait));
    assert!(matches!(f.labelled(&label, true), Step::Wait));
}

#[test]
fn an_admitted_connection_stays_admitted() {
    let hdr = build(V2_PROXY, 0x11, &[10, 0, 1, 28], None);
    let fc = ppv2_config(&format!("{{{ULA}}}"));
    let mut host = Host::default();
    let mut f = fc.new_filter();
    assert_eq!(f.on_accept(), Status::StopIteration);
    assert_eq!(f.max_read_bytes(), 256);
    assert_eq!(host.on_data(&fc, &mut f, &hdr), Status::Continue);
    assert_eq!(host.on_data(&fc, &mut f, b"whatever"), Status::Continue);
    assert_eq!(host.remote.len(), 1);
}

#[test]
fn without_a_table_nothing_is_synthesized() {
    let hdr = build(V2_PROXY, 0x11, &[10, 0, 1, 28], None);
    let fc = ppv2_config(r#"{"subscribe":true}"#);
    let mut f = fc.new_filter();
    let step = f.on_data(None, &hdr);
    assert!(matches!(step, Step::Refuse(tcp::Reason::NoTable)));
    assert!(matches!(f.on_data(None, &hdr), Step::Wait));

    let fc = udp_config(r#"{"subscribe":true}"#);
    let mut f = fc.new_filter();
    assert_eq!(
        f.on_data(None, &[&hdr]),
        udp::Decision::Deny(Counted::Denied)
    );
}

#[test]
fn a_datagram_in_chunks_is_joined() {
    let mut dg = build(
        V2_PROXY,
        0x12,
        &[10, 0, 1, 28],
        Some(b"vpce-0123456789abcdef0"),
    );
    dg.extend_from_slice(b"payload");
    let fc = udp_config(&format!("{{{ULA},{TENANT}}}"));
    let (status, forwarded, _) = datagram(&fc, &[&dg[..5], &dg[5..20], &dg[20..]]);
    assert_eq!(status, Status::Continue);
    assert_eq!(forwarded.unwrap(), b"payload");
    // No chunks at all are no header.
    let (status, forwarded, _) = datagram(&fc, &[]);
    assert_eq!(status, Status::StopIteration);
    assert!(forwarded.is_none());
}

#[test]
fn an_auth_filter_that_is_asked_for_bytes_fails_closed() {
    let fc = auth_config(SCOPED);
    let mut f = fc.new_filter();
    assert!(matches!(f.on_data(), Step::Refuse(_)));
    assert!(matches!(f.on_data(), Step::Wait));
    // A label that is no IPv6 address is no label.
    let mut f = fc.new_filter();
    assert!(matches!(
        f.on_accept(Some("10.0.0.1"), b"l7.mgmt.test"),
        Step::Refuse(tcp::Reason::NoIdentityLabel)
    ));
}

#[test]
fn a_filter_judges_by_the_config_it_was_made_for() {
    let tenant = Some("fd00:dead:beef:1:7b53:e75b:a00:11c");
    let open = auth_config(SCOPED);
    let shut = auth_config(r#"{"scopes":[]}"#);
    let sni = b"l7.mgmt.test";
    assert!(matches!(open.new_filter().on_accept(tenant, sni), Step::Admit));
    assert!(matches!(
        shut.new_filter().on_accept(tenant, sni),
        Step::Refuse(tcp::Reason::DeniedByAllowlist)
    ));
    // Until it is told to follow another.
    let mut f = shut.new_filter();
    f.follow(open.cfg.clone());
    assert!(matches!(f.on_accept(tenant, sni), Step::Admit));

    let dg = build(V2_PROXY, 0x12, &[10, 0, 1, 28], Some(b"vpce-0123456789abcdef0"));
    let open = udp_config(&format!("{{{ULA},{TENANT}}}"));
    let shut = udp_config(&format!("{{{ULA}}}"));
    assert_eq!(open.new_filter().on_data(None, &[&dg]), udp::Decision::Forward);
    let mut f = shut.new_filter();
    assert_eq!(f.on_data(None, &[&dg]), udp::Decision::Deny(Counted::Denied));
    f.follow(open.cfg.clone());
    assert_eq!(f.on_data(None, &[&dg]), udp::Decision::Forward);
}

#[test]
fn a_subscribing_datagram_filter_goes_by_the_published_table() {
    let dg = build(V2_PROXY, 0x12, &[10, 0, 1, 28], None);
    let table = config::parse_table(r#"{"ula":"fd00:dead:beef::/48"}"#).unwrap();
    let mut c = config::parse(r#"{"subscribe":true,"allow":["10.0.0.0/8"]}"#).unwrap();
    c.refresh(1, Some(&table));
    let mut f = udp::Ppv2AuthFilter::new(Arc::new(c));
    assert_eq!(f.on_data(None, &[&dg]), udp::Decision::Deny(Counted::Denied));
    assert_eq!(f.on_data(Some(&table), &[&dg]), udp::Decision::Forward);
}

#[test]
fn nothing_is_admitted_without_a_header() {
    let fc = ppv2_config(&format!("{{{ULA}}}"));
    let one = build(V2_PROXY, 0x11, &[10, 0, 1, 28], None);
    let two = build(V2_PROXY, 0x11, &[10, 0, 1, 29], None);
    let mut other = fc.new_filter();
    let Step::Label(first) = other.on_data(None, &one) else { panic!("no label") };
    let Step::Label(second) = other.on_data(None, &two) else { panic!("no label") };
    // A label that the filter has not given settles nothing.
    let mut f = fc.new_filter();
    assert!(matches!(f.labelled(&first, true), Step::Wait));
    assert!(matches!(f.on_data(None, &two), Step::Label(_)));
    assert!(matches!(f.labelled(&first, true), Step::Wait));
    // Neither does one that the bytes have moved on from.
    assert!(matches!(f.on_data(None, &two[..20]), Step::Wait));
    assert!(matches!(f.labelled(&second, true), Step::Wait));
    assert!(matches!(f.on_data(None, &two), Step::Label(_)));
    assert!(matches!(f.labelled(&second, true), Step::Admit));
}

#[test]
fn an_endpoint_id_that_is_no_text_is_shown_as_far_as_it_is() {
    let fc = ppv2_config(&format!("{{{ULA}}}"));
    let hdr = build(V2_PROXY, 0x11, &[10, 0, 1, 28], Some(b"vpce-\xff1"));
    let Step::Label(label) = fc.new_filter().on_data(None, &hdr) else { panic!("no label") };
    assert_eq!(label.vpce, b"vpce-\xff1");
    assert_eq!(label.vpce_text(), "vpce-\u{fffd}1");
}

#[test]
fn the_carrier_lets_everything_pass() {
    let tcp_table = tcp::TableConfig;
    assert_eq!(tcp_table.on_accept(), Status::Continue);
    assert_eq!(tcp_table.on_data(), Status::Continue);
    assert_eq!(tcp_table.max_read_bytes(), 0);
    assert_eq!(udp::TableConfig.on_data(), Status::Continue);
}
