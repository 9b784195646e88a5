//! The TCP listener filters, one per filter_name, as state machines: what arrives
//! goes in, and what to do comes out.
//!
//! `ppv2` and `ppv2_auth` parse the PROXY header, synthesize the identity and label
//! the socket; `ppv2_auth` additionally judges it against the flat allowlist. `auth`
//! reads the label a `ppv2` filter left and scopes it by SNI.
//!
//! ```text
//! tcp  -> [ppv2_auth, ...]
//! tls  -> [ppv2, tls_inspector, auth, ...]
//! ```
//!
//! Non-PPv2 traffic is refused, always: this is the first thing after the load
//! balancer, so anything without a header reached the listener directly.

use crate::config::{permitted, scope_list, share, Config};
use crate::identity::{format_src, four, synthesize, synthesized, to_u128, AddrText, SchemeView};
use crate::ip::{
    law_v4_text_reads_back, law_v6_text_reads_back, read_v6, v4, v4_text, v6, v6_text,
};
use crate::meeting::law_synthesized_or_real;
use crate::ppv2::{self, parsed, HeaderView, MAX_HEADER};
use crate::prefix::{be, number_of};
pub use crate::stats::Counters;
use crate::stats::Counted;
use crate::table::Table;
use crate::text::{chars_of, lossy, lossy_text};
use std::sync::Arc;
use vstd::prelude::*;
use vstd::slice::slice_to_vec;
use vstd::utf8::{encode_utf8, valid_utf8};

verus! {

/// What the host is told.
#[derive(Debug, Clone, Copy, PartialEq, Eq)]
pub enum Status {
    Continue,
    /// Wait -- not "reject": the host calls again as bytes arrive.
    StopIteration,
}

/// Why a connection is refused.
#[derive(Debug, Clone, Copy, PartialEq, Eq)]
pub enum Reason {
    /// Parsed and judged; no rule covers the identity.
    DeniedByAllowlist,
    /// No PPv2 header -- reached the listener directly.
    NotProxyProtocol,
    /// `auth` ran without a `ppv2` filter ahead of it.
    NoIdentityLabel,
    /// The host rejected the relabel.
    SetRemoteAddressFailed,
    /// There is no table to synthesize an identity with.
    NoTable,
}

pub open spec fn reason_text(reason: Reason) -> Seq<char> {
    match reason {
        Reason::DeniedByAllowlist => "denied_by_allowlist"@,
        Reason::NotProxyProtocol => "not_proxy_protocol"@,
        Reason::NoIdentityLabel => "no_identity_label"@,
        Reason::SetRemoteAddressFailed => "set_remote_address_failed"@,
        Reason::NoTable => "no_identity_table"@,
    }
}

/// What a refusal counts as.
pub open spec fn counts_as(reason: Reason) -> Counted {
    match reason {
        Reason::NotProxyProtocol => Counted::NotPpv2,
        _ => Counted::Denied,
    }
}

impl Reason {
    /// The token that the access log shows.
    pub fn as_str(&self) -> (r: &'static str)
        ensures
            r@ == reason_text(*self),
    {
        match self {
            Reason::DeniedByAllowlist => "denied_by_allowlist",
            Reason::NotProxyProtocol => "not_proxy_protocol",
            Reason::NoIdentityLabel => "no_identity_label",
            Reason::SetRemoteAddressFailed => "set_remote_address_failed",
            Reason::NoTable => "no_identity_table",
        }
    }

    /// What a refusal counts as.
    pub fn counted(&self) -> (r: Counted)
        ensures
            r == if *self == Reason::NotProxyProtocol {
                Counted::NotPpv2
            } else {
                Counted::Denied
            },
            r == counts_as(*self),
    {
        match self {
            Reason::NotProxyProtocol => Counted::NotPpv2,
            _ => Counted::Denied,
        }
    }
}

/// What to put on a socket: the identity, and what the header said for the log.
#[derive(Debug)]
pub struct Label {
    /// Carried beside the text so enforcement never re-parses what it just
    /// formatted.
    pub id: u128,
    pub text: AddrText,
    pub port: u32,
    /// Header bytes to drain.
    pub len: usize,
    /// The endpoint id that the load balancer wrote.
    pub vpce: Vec<u8>,
    /// The source that the header gave.
    pub src: AddrText,
}

impl Label {
    /// The endpoint id, for the access log.
    pub fn vpce_text(&self) -> (r: String)
        ensures
            r@ == lossy(self.vpce@),
            valid_utf8(self.vpce@) ==> encode_utf8(r@) == self.vpce@,
    {
        lossy_text(&self.vpce)
    }
}

/// The label of a header with this address.
pub open spec fn label_is(l: Label, h: HeaderView, addr: Seq<u8>) -> bool {
    &&& l.id == be(addr)
    &&& l.text@ == v6_text(addr)
    &&& l.port == h.src_port
    &&& l.len == h.len
    &&& l.vpce@ == h.vpce
    &&& l.src@ == if h.is_v6 {
        v6_text(h.src)
    } else {
        v4_text(four(h.src))
    }
}

/// What to do.
#[derive(Debug)]
pub enum Step {
    /// Nothing yet.
    Wait,
    /// Set the remote address and report back with `labelled`.
    Label(Label),
    /// Close the socket.
    Refuse(Reason),
    /// Let the connection go on.
    Admit,
}

impl Step {
    pub fn status(&self) -> (r: Status)
        ensures
            r == if *self is Admit {
                Status::Continue
            } else {
                Status::StopIteration
            },
    {
        match self {
            Step::Admit => Status::Continue,
            _ => Status::StopIteration,
        }
    }
}

// --- ppv2 / ppv2_auth: parse, label, drain, maybe enforce ----------------------

#[derive(Debug)]
pub struct Ppv2Config {
    pub cfg: Arc<Config>,
    /// Fixed by filter_name at listener build, never read from config -- it cannot
    /// drift.
    pub enforce: bool,
    pub counters: Counters,
}

impl Ppv2Config {
    /// `ppv2_auth`: label, then judge against the flat allowlist.
    pub fn enforcing(cfg: Arc<Config>, counters: Counters) -> (r: Ppv2Config)
        ensures
            r.cfg == cfg,
            r.enforce,
            r.counters == counters,
    {
        Ppv2Config { cfg, enforce: true, counters }
    }

    /// `ppv2`: label and drain only; a later `auth` filter judges.
    pub fn labelling(cfg: Arc<Config>, counters: Counters) -> (r: Ppv2Config)
        ensures
            r.cfg == cfg,
            !r.enforce,
            r.counters == counters,
    {
        Ppv2Config { cfg, enforce: false, counters }
    }

    /// The filter of one connection, which judges by this config: configs come and go,
    /// and none is pinned for the connections of another.
    pub fn new_filter(&self) -> (r: Ppv2Filter)
        ensures
            r.config() == *self.cfg,
            r@ == unseen(self.enforce),
    {
        Ppv2Filter::new(share(&self.cfg), self.enforce)
    }
}

/// Where a connection stands.
pub struct Ppv2State {
    pub enforce: bool,
    /// Total bytes wanted, counted from the start of the connection.
    pub want: usize,
    /// The identity of the label that the host has been asked to set.
    pub label: Option<u128>,
    pub done: bool,
    pub refused: bool,
}

/// Nothing has been seen of the connection.
pub open spec fn unseen(enforce: bool) -> Ppv2State {
    Ppv2State { enforce, want: MAX_HEADER, label: None, done: false, refused: false }
}

/// Where a connection stands when `buf` has arrived, with a scheme to synthesize by or
/// without.
pub open spec fn data_state(s: Ppv2State, scheme: Option<SchemeView>, buf: Seq<u8>) -> Ppv2State {
    if s.refused || s.done {
        s
    } else {
        match (scheme, parsed(buf)) {
            (None, _) => Ppv2State { refused: true, ..s },
            (Some(_), Err(ppv2::Error::Need(n))) => Ppv2State { want: n, label: None, ..s },
            (Some(_), Err(ppv2::Error::Invalid)) => Ppv2State { refused: true, ..s },
            (Some(v), Ok(h)) => Ppv2State { label: Some(identity(v, h)), ..s },
        }
    }
}

/// The identity of a header.
pub open spec fn identity(s: SchemeView, h: HeaderView) -> u128 {
    be(synthesized(s, h)) as u128
}

/// Where a connection stands when the host has answered the label with this identity.
pub open spec fn labelled_state(
    s: Ppv2State,
    id: u128,
    accepted: bool,
    permitted: bool,
) -> Ppv2State {
    if s.refused || s.done || s.label != Some(id) {
        s
    } else if !accepted || (s.enforce && !permitted) {
        Ppv2State { refused: true, ..s }
    } else {
        Ppv2State { done: true, ..s }
    }
}

#[derive(Debug)]
pub struct Ppv2Filter {
    cfg: Arc<Config>,
    enforce: bool,
    /// TOTAL bytes from connection start, not the remainder -- the host peeks, never
    /// consumes.
    want: usize,
    /// No answer to any other label counts.
    label: Option<u128>,
    /// Terminal and asymmetric: `done` admits, `refused` can never later admit.
    done: bool,
    refused: bool,
}

impl View for Ppv2Filter {
    type V = Ppv2State;

    closed spec fn view(&self) -> Ppv2State {
        Ppv2State {
            enforce: self.enforce,
            want: self.want,
            label: self.label,
            done: self.done,
            refused: self.refused,
        }
    }
}

impl Ppv2Filter {
    /// The config that the filter judges by.
    pub closed spec fn config(&self) -> Config {
        *self.cfg
    }

    /// The filter of a connection that nothing has been seen of.
    pub fn new(cfg: Arc<Config>, enforce: bool) -> (r: Ppv2Filter)
        ensures
            r.config() == *cfg,
            r@ == unseen(enforce),
    {
        // Ceiling up front: what a header may need is read in one go.
        Ppv2Filter { cfg, enforce, want: MAX_HEADER, label: None, done: false, refused: false }
    }

    /// Judge by the config as it is expanded now: a subscriber's rules move with the
    /// published table.
    pub fn follow(&mut self, cfg: Arc<Config>)
        ensures
            final(self).config() == *cfg,
            final(self)@ == old(self)@,
    {
        self.cfg = cfg;
    }

    /// Always inspect bytes; never go on straight from accept.
    pub fn on_accept(&self) -> (r: Status)
        ensures
            r == Status::StopIteration,
    {
        Status::StopIteration
    }

    pub fn max_read_bytes(&self) -> (r: usize)
        ensures
            r == self@.want,
    {
        self.want
    }

    /// Take in what has arrived so far; `table` is the one that is published. Refusal
    /// wins: a connection that was refused is waited on for ever, whatever it sends.
    pub fn on_data(&mut self, table: Option<&Table>, buf: &[u8]) -> (r: Step)
        ensures
            final(self).config() == old(self).config(),
            final(self)@ == data_state(old(self)@, old(self).config().goes_by(table), buf@),
            r is Admit <==> admits(
                old(self)@,
                (Event::Data { scheme: old(self).config().goes_by(table), buf: buf@ }),
            ),
            old(self)@.refused ==> r is Wait,
            !old(self)@.refused && !old(self)@.done ==> {
                match (old(self).config().goes_by(table), parsed(buf@)) {
                    (None, _) => r == Step::Refuse(Reason::NoTable),
                    (Some(_), Err(ppv2::Error::Need(_))) => r is Wait,
                    (Some(_), Err(ppv2::Error::Invalid)) => r == Step::Refuse(
                        Reason::NotProxyProtocol,
                    ),
                    (Some(s), Ok(h)) => {
                        &&& r matches Step::Label(l)
                        &&& label_is(l, h, synthesized(s, h))
                    },
                }
            },
    {
        if self.refused {
            return Step::Wait;
        }
        if self.done {
            return Step::Admit;
        }
        let s = match self.cfg.scheme_with(table) {
            Some(s) => s,
            None => {
                self.refused = true;
                return Step::Refuse(Reason::NoTable);
            },
        };
        match ppv2::parse(buf) {
            Ok(h) => {
                let addr = synthesize(s, &h);
                let label = Label {
                    id: to_u128(addr),
                    text: crate::identity::format(addr),
                    port: h.src_port as u32,
                    len: h.len,
                    vpce: slice_to_vec(h.vpce),
                    src: format_src(h.src, h.is_v6),
                };
                assert(label.vpce@ =~= h.vpce@);
                self.label = Some(label.id);
                Step::Label(label)
            },
            Err(ppv2::Error::Need(n)) => {
                self.want = n;
                self.label = None;
                Step::Wait
            },
            // No header means the client reached the listener directly.
            Err(ppv2::Error::Invalid) => {
                self.refused = true;
                Step::Refuse(Reason::NotProxyProtocol)
            },
        }
    }

    /// Go on from a label: `accepted` says whether the host took it. Label and strip
    /// come before judging, so the access log shows what was judged. A label that was
    /// not asked for settles nothing.
    pub fn labelled(&mut self, label: &Label, accepted: bool) -> (r: Step)
        ensures
            final(self).config() == old(self).config(),
            ({
                let s = old(self)@;
                let cfg = old(self).config();
                let covered = permitted(cfg.allow@, scope_list(cfg.scopes), seq![], label.id);
                let open = !s.refused && !s.done;
                &&& final(self)@ == labelled_state(s, label.id, accepted, covered)
                &&& r is Admit <==> admits(
                    s,
                    Event::Labelled { id: label.id, accepted, permitted: covered },
                )
                &&& s.refused || (open && s.label != Some(label.id)) ==> r is Wait
                &&& open && s.label == Some(label.id) && !accepted ==> r == Step::Refuse(
                    Reason::SetRemoteAddressFailed,
                )
                &&& open && s.label == Some(label.id) && accepted && !(r is Admit) ==> r
                    == Step::Refuse(Reason::DeniedByAllowlist)
            }),
    {
        if self.refused {
            return Step::Wait;
        }
        if self.done {
            return Step::Admit;
        }
        if self.label != Some(label.id) {
            return Step::Wait;
        }
        if !accepted {
            // A failure cannot be retried, so refuse rather than stall.
            self.refused = true;
            return Step::Refuse(Reason::SetRemoteAddressFailed);
        }
        if self.enforce && !self.cfg.permits_unscoped(label.id) {
            self.refused = true;
            return Step::Refuse(Reason::DeniedByAllowlist);
        }
        self.done = true;
        Step::Admit
    }
}

// --- auth: read the label, scope by SNI, allow or close -------------------------

#[derive(Debug)]
pub struct AuthConfig {
    pub cfg: Arc<Config>,
    pub counters: Counters,
}

impl AuthConfig {
    /// The filter of one connection, which judges by this config: configs come and go,
    /// and none is pinned for the connections of another.
    pub fn new_filter(&self) -> (r: AuthFilter)
        ensures
            r.config() == *self.cfg,
            !r@,
    {
        AuthFilter::new(share(&self.cfg))
    }
}

/// The filter that carries the table for all the others: it lets everything pass,
/// on a listener that nothing routes to.
#[derive(Debug)]
pub struct TableConfig;

impl TableConfig {
    /// Nothing to judge.
    pub fn on_accept(&self) -> (r: Status)
        ensures
            r == Status::Continue,
    {
        Status::Continue
    }

    /// Nothing to read.
    pub fn max_read_bytes(&self) -> (r: usize)
        ensures
            r == 0,
    {
        0
    }

    pub fn on_data(&self) -> (r: Status)
        ensures
            r == Status::Continue,
    {
        Status::Continue
    }
}

#[derive(Debug)]
pub struct AuthFilter {
    cfg: Arc<Config>,
    /// Terminal either way: this filter admits or closes, never both.
    settled: bool,
}

impl View for AuthFilter {
    type V = bool;

    closed spec fn view(&self) -> bool {
        self.settled
    }
}

/// The identity that a remote address stands for.
pub open spec fn identity_of(addr: Option<Seq<char>>) -> Option<u128> {
    match addr {
        None => None,
        Some(t) => match v6(t) {
            None => None,
            Some(o) => Some(be(o) as u128),
        },
    }
}

/// The rules of `auth` let a connection to this server name go on with this remote
/// address.
pub open spec fn label_passes(c: Config, addr: Option<Seq<char>>, sni: Seq<u8>) -> bool {
    identity_of(addr) matches Some(id) && permitted(c.allow@, scope_list(c.scopes), sni, id)
}

/// The address a preceding `ppv2` filter wrote onto the socket.
pub fn labelled_identity(addr: Option<&str>) -> (r: Option<u128>)
    ensures
        r == identity_of(
            match addr {
                Some(t) => Some(t@),
                None => None,
            },
        ),
{
    match addr {
        None => None,
        Some(t) => {
            let chars = chars_of(t);
            match read_v6(&chars) {
                None => None,
                Some(o) => Some(number_of(&o)),
            }
        },
    }
}

impl AuthFilter {
    /// The config that the filter judges by.
    pub closed spec fn config(&self) -> Config {
        *self.cfg
    }

    /// The filter of a connection that has not been judged.
    pub fn new(cfg: Arc<Config>) -> (r: AuthFilter)
        ensures
            r.config() == *cfg,
            !r@,
    {
        AuthFilter { cfg, settled: false }
    }

    /// Judge by the config as it is expanded now: a subscriber's rules move with the
    /// published table.
    pub fn follow(&mut self, cfg: Arc<Config>)
        ensures
            final(self).config() == *cfg,
            final(self)@ == old(self)@,
    {
        self.cfg = cfg;
    }

    /// The whole filter: accept runs after every preceding filter, so SNI and label
    /// are already set.
    pub fn on_accept(&mut self, addr: Option<&str>, sni: &[u8]) -> (r: Step)
        ensures
            final(self).config() == old(self).config(),
            final(self)@,
            match identity_of(
                match addr {
                    Some(t) => Some(t@),
                    None => None,
                },
            ) {
                // No label means no `ppv2` filter ran ahead.
                None => r == Step::Refuse(Reason::NoIdentityLabel),
                Some(id) => if permitted(
                    old(self).config().allow@,
                    scope_list(old(self).config().scopes),
                    sni@,
                    id,
                ) {
                    r is Admit
                } else {
                    r == Step::Refuse(Reason::DeniedByAllowlist)
                },
            },
            r is Admit <==> label_passes(
                old(self).config(),
                match addr {
                    Some(t) => Some(t@),
                    None => None,
                },
                sni@,
            ),
    {
        self.settled = true;
        match labelled_identity(addr) {
            None => Step::Refuse(Reason::NoIdentityLabel),
            Some(id) => {
                if self.cfg.permits(sni, id) {
                    Step::Admit
                } else {
                    Step::Refuse(Reason::DeniedByAllowlist)
                }
            },
        }
    }

    /// 0 makes the host bypass `on_data` entirely: this filter reads no bytes.
    pub fn max_read_bytes(&self) -> (r: usize)
        ensures
            r == 0,
    {
        0
    }

    /// Unreachable with nothing to read; fail closed all the same.
    pub fn on_data(&mut self) -> (r: Step)
        ensures
            final(self).config() == old(self).config(),
            final(self)@,
            r == if old(self)@ {
                Step::Wait
            } else {
                Step::Refuse(Reason::NoIdentityLabel)
            },
    {
        if self.settled {
            return Step::Wait;
        }
        self.settled = true;
        Step::Refuse(Reason::NoIdentityLabel)
    }
}

// --- laws ---------------------------------------------------------------------

/// What can happen to a connection: bytes are there to look at, or the host has
/// answered a label.
pub enum Event {
    Data { scheme: Option<SchemeView>, buf: Seq<u8> },
    Labelled { id: u128, accepted: bool, permitted: bool },
}

/// Where a connection stands after an event.
pub open spec fn next(s: Ppv2State, e: Event) -> Ppv2State {
    match e {
        Event::Data { scheme, buf } => data_state(s, scheme, buf),
        Event::Labelled { id, accepted, permitted } => labelled_state(s, id, accepted, permitted),
    }
}

/// The connection is let go on by an event.
pub open spec fn admits(s: Ppv2State, e: Event) -> bool {
    &&& !s.refused
    &&& s.done || (e matches Event::Labelled { id, accepted, permitted } && s.label == Some(id)
        && accepted && (s.enforce ==> permitted))
}

pub open spec fn after(s: Ppv2State, events: Seq<Event>) -> Ppv2State
    decreases events.len(),
{
    if events.len() == 0 {
        s
    } else {
        next(after(s, events.drop_last()), events.last())
    }
}

/// A connection that was refused is never admitted later, whatever happens to it.
pub proof fn law_refused_is_final(s: Ppv2State, events: Seq<Event>, e: Event)
    requires
        s.refused,
    ensures
        after(s, events) == s,
        !admits(after(s, events), e),
    decreases events.len(),
{
    if events.len() > 0 {
        law_refused_is_final(s, events.drop_last(), e);
    }
}

/// A connection that was admitted stays so.
pub proof fn law_admitted_is_final(s: Ppv2State, events: Seq<Event>, e: Event)
    requires
        s.done,
        !s.refused,
    ensures
        after(s, events) == s,
        admits(after(s, events), e),
    decreases events.len(),
{
    if events.len() > 0 {
        law_admitted_is_final(s, events.drop_last(), e);
    }
}

/// Bytes that held a header, with a scheme that gives it this identity.
pub open spec fn shows(e: Event, id: u128) -> bool {
    e matches Event::Data { scheme, buf } && shows_in(scheme, buf, id)
}

pub open spec fn shows_in(scheme: Option<SchemeView>, buf: Seq<u8>, id: u128) -> bool {
    &&& scheme matches Some(v)
    &&& parsed(buf) matches Ok(h)
    &&& id == identity(v, h)
}

/// The host took the label with this identity, and the rules permit it where they are
/// to be asked.
pub open spec fn passes(e: Event, id: u128, enforce: bool) -> bool {
    e matches Event::Labelled { id: given, accepted, permitted } && given == id && accepted && (
    enforce ==> permitted)
}

/// Nothing is admitted without a header, and an enforcing filter admits nothing that
/// the rules do not permit: before a connection is done, its bytes have held a header,
/// and the host has then taken the label with that header's identity, which is the one
/// that was permitted.
pub proof fn law_admission_takes_a_header(enforce: bool, events: Seq<Event>)
    requires
        after(unseen(enforce), events).done,
    ensures
        exists|i: int, j: int, id: u128|
            0 <= i < j < events.len() && #[trigger] shows(events[i], id) && #[trigger] passes(
                events[j],
                id,
                enforce,
            ),
    decreases events.len(),
{
    let s = unseen(enforce);
    if events.len() > 0 {
        let head = events.drop_last();
        let n = events.len() - 1;
        let before = after(s, head);
        lemma_enforce_stays(s, head);
        if before.done {
            law_admission_takes_a_header(enforce, head);
            let (i, j, id) = choose|i: int, j: int, id: u128|
                0 <= i < j < head.len() && #[trigger] shows(head[i], id) && #[trigger] passes(
                    head[j],
                    id,
                    enforce,
                );
            assert(events[i] == head[i] && events[j] == head[j]);
            assert(shows(events[i], id) && passes(events[j], id, enforce));
        } else {
            let id = before.label->Some_0;
            lemma_label_takes_a_header(s, head);
            let i = choose|i: int| 0 <= i < head.len() && #[trigger] shows(head[i], id);
            assert(events[i] == head[i]);
            assert(shows(events[i], id) && passes(events[n], id, enforce));
        }
    }
}

proof fn lemma_label_takes_a_header(s: Ppv2State, events: Seq<Event>)
    requires
        s.label is None,
    ensures
        after(s, events).label matches Some(id) ==> exists|i: int|
            0 <= i < events.len() && #[trigger] shows(events[i], id),
    decreases events.len(),
{
    if events.len() > 0 {
        let head = events.drop_last();
        let n = events.len() - 1;
        lemma_label_takes_a_header(s, head);
        if let Some(id) = after(s, events).label {
            if after(s, head).label == Some(id) {
                let i = choose|i: int| 0 <= i < head.len() && #[trigger] shows(head[i], id);
                assert(events[i] == head[i]);
                assert(shows(events[i], id));
            } else {
                assert(shows(events[n], id));
            }
        }
    }
}

proof fn lemma_enforce_stays(s: Ppv2State, events: Seq<Event>)
    ensures
        after(s, events).enforce == s.enforce,
    decreases events.len(),
{
    if events.len() > 0 {
        lemma_enforce_stays(s, events.drop_last());
    }
}

/// A header, however long it was waited for, and the host's answer to its label settle a
/// connection: a filter that only labels lets it go on, and one that enforces does
/// exactly where the rules permit the identity. A label that the host does not take is
/// the end of it.
pub proof fn law_header_and_answer_settle(
    s: Ppv2State,
    v: SchemeView,
    buf: Seq<u8>,
    h: HeaderView,
    accepted: bool,
    permitted: bool,
)
    requires
        !s.done,
        !s.refused,
        parsed(buf) == Ok::<HeaderView, ppv2::Error>(h),
    ensures
        ({
            let id = be(synthesized(v, h)) as u128;
            let seen = next(s, Event::Data { scheme: Some(v), buf });
            let answer = Event::Labelled { id, accepted, permitted };
            let end = next(seen, answer);
            &&& !seen.done && !seen.refused && seen.label == Some(id)
            &&& end.done <==> accepted && (!s.enforce || permitted)
            &&& end.refused <==> !end.done
            &&& admits(seen, answer) <==> end.done
            &&& end.enforce == s.enforce
        }),
{
}

/// Bytes that are no header yet are waited on, for as many as the header will have;
/// bytes that are none are refused, and so are all where there is no table.
pub proof fn law_bytes_without_a_header(s: Ppv2State, v: SchemeView, buf: Seq<u8>)
    requires
        !s.done,
        !s.refused,
    ensures
        ({
            let waiting = next(s, Event::Data { scheme: Some(v), buf });
            let bare = next(s, Event::Data { scheme: None, buf });
            &&& bare.refused && !bare.done
            &&& parsed(buf) matches Err(ppv2::Error::Need(n)) ==> !waiting.refused && !waiting.done
                && waiting.want == n && waiting.label is None
            &&& parsed(buf) matches Err(ppv2::Error::Invalid) ==> waiting.refused && !waiting.done
        }),
{
}

/// An answer to any other label than the one that was asked for last changes nothing.
pub proof fn law_other_answers_settle_nothing(
    s: Ppv2State,
    id: u128,
    accepted: bool,
    permitted: bool,
)
    requires
        !s.done,
        s.label != Some(id),
    ensures
        next(s, Event::Labelled { id, accepted, permitted }) == s,
        !admits(s, Event::Labelled { id, accepted, permitted }),
{
}

/// An event lets a connection go on exactly where it leaves it done.
pub proof fn law_going_on_is_being_done(s: Ppv2State, e: Event)
    ensures
        admits(s, e) <==> next(s, e).done && !next(s, e).refused,
        s.refused ==> next(s, e) == s,
        !s.refused && s.done ==> next(s, e) == s,
{
}

/// A new connection is neither admitted nor refused, and all that a header may have is
/// asked for at once.
pub proof fn law_nothing_is_settled_at_first(enforce: bool)
    ensures
        unseen(enforce).enforce == enforce,
        unseen(enforce).want == 256,
        unseen(enforce).label is None,
        !unseen(enforce).done,
        !unseen(enforce).refused,
{
}

/// What `ppv2` writes on a socket, `auth` reads back as the same identity; an address
/// that is no IPv6 one is none.
pub proof fn law_labels_are_read_back(l: Label, h: HeaderView, addr: Seq<u8>, t: Seq<char>)
    requires
        addr.len() == 16,
        label_is(l, h, addr),
    ensures
        identity_of(Some(l.text@)) == Some(l.id),
        l.id == be(addr),
        l.port == h.src_port,
        l.len == h.len,
        v6(t) is None ==> identity_of(Some(t)) is None,
        identity_of(None) is None,
{
    law_v6_text_reads_back(addr);
}

/// A label shows the source that the header gave: as IPv6, or as the dotted quad of its
/// first four octets.
pub proof fn law_labels_show_the_source(l: Label, h: HeaderView, addr: Seq<u8>)
    requires
        h.src.len() == 16,
        label_is(l, h, addr),
    ensures
        l.vpce@ == h.vpce,
        h.is_v6 ==> v6(l.src@) == Some(h.src),
        !h.is_v6 ==> v4(l.src@) == Some(h.src.take(4)),
{
    if h.is_v6 {
        law_v6_text_reads_back(h.src);
    } else {
        law_v4_text_reads_back(four(h.src));
        assert(four(h.src) =~= h.src.take(4));
    }
}

/// No two reasons show alike in the log.
pub proof fn law_reasons_are_told_apart(a: Reason, b: Reason)
    requires
        reason_text(a) == reason_text(b),
    ensures
        a == b,
{
    reveal_strlit("denied_by_allowlist");
    reveal_strlit("not_proxy_protocol");
    reveal_strlit("no_identity_label");
    reveal_strlit("set_remote_address_failed");
    reveal_strlit("no_identity_table");
    assert("denied_by_allowlist"@.len() == 19);
    assert("not_proxy_protocol"@.len() == 18);
    assert("no_identity_label"@.len() == 17);
    assert("set_remote_address_failed"@.len() == 25);
    assert("no_identity_table"@.len() == 17);
    assert("no_identity_label"@[12] == 'l');
    assert("no_identity_table"@[12] == 't');
}

/// What the log shows for each reason.
pub proof fn law_reasons_show_as_tokens()
    ensures
        reason_text(Reason::DeniedByAllowlist) == "denied_by_allowlist"@,
        reason_text(Reason::NotProxyProtocol) == "not_proxy_protocol"@,
        reason_text(Reason::NoIdentityLabel) == "no_identity_label"@,
        reason_text(Reason::SetRemoteAddressFailed) == "set_remote_address_failed"@,
        reason_text(Reason::NoTable) == "no_identity_table"@,
{
}

/// `auth` judges the identity that `ppv2` synthesized for the header, by the server name;
/// a connection without a label, or with one that is no address, never goes on.
pub proof fn law_auth_judges_what_ppv2_wrote(
    c: Config,
    l: Label,
    v: SchemeView,
    h: HeaderView,
    sni: Seq<u8>,
    t: Seq<char>,
)
    requires
        v.well_formed(),
        h.src.len() == 16,
        label_is(l, h, synthesized(v, h)),
    ensures
        label_passes(c, Some(l.text@), sni) <==> permitted(
            c.allow@,
            scope_list(c.scopes),
            sni,
            be(synthesized(v, h)) as u128,
        ),
        !label_passes(c, None, sni),
        v6(t) is None ==> !label_passes(c, Some(t), sni),
{
    law_synthesized_or_real(v, h);
    law_v6_text_reads_back(synthesized(v, h));
}

/// Refusals count as denied, save those of connections that never spoke the protocol.
pub proof fn law_refusals_are_counted(reason: Reason)
    ensures
        counts_as(Reason::NotProxyProtocol) == Counted::NotPpv2,
        reason != Reason::NotProxyProtocol ==> counts_as(reason) == Counted::Denied,
        counts_as(reason) != Counted::Allowed,
{
}

} // verus!
