//! UDP listener filter: parse PPv2, enforce, strip. Chained before udp_proxy.
//!
//! Enforces here because no UDP callback can attach an identity to a session, so
//! nothing downstream can read one -- it is this filter or nowhere. Synthesizes the
//! same address as the TCP filter against the same allowlist format.

use crate::config::{permitted, scope_list, share, Config};
use crate::identity::{synthesize, synthesized, to_u128, SchemeView};
use crate::ppv2::{self, parsed, wire, HeaderView};
use crate::prefix::be;
pub use crate::stats::Counters;
use crate::stats::Counted;
use crate::table::Table;
use crate::tcp::{admits, next, unseen, Event, Status};
use std::sync::Arc;
use vstd::prelude::*;

verus! {

#[derive(Debug)]
pub struct Ppv2AuthConfig {
    pub cfg: Arc<Config>,
    pub counters: Counters,
}

impl Ppv2AuthConfig {
    /// The filter of one worker, which judges by this config.
    pub fn new_filter(&self) -> (r: Ppv2AuthFilter)
        ensures
            r.config() == *self.cfg,
            r@ == Seq::<u8>::empty(),
    {
        Ppv2AuthFilter::new(share(&self.cfg))
    }
}

/// The filter that carries the table for all the others.
#[derive(Debug)]
pub struct TableConfig;

impl TableConfig {
    /// Nothing to judge.
    pub fn on_data(&self) -> (r: Status)
        ensures
            r == Status::Continue,
    {
        Status::Continue
    }
}

#[derive(Debug)]
pub struct Ppv2AuthFilter {
    cfg: Arc<Config>,
    /// Reused across datagrams -- the filter is per-listener-per-worker and single
    /// threaded.
    payload: Vec<u8>,
}

impl View for Ppv2AuthFilter {
    type V = Seq<u8>;

    closed spec fn view(&self) -> Seq<u8> {
        self.payload@
    }
}

#[derive(Debug, Clone, Copy, PartialEq, Eq)]
pub enum Decision {
    /// The stripped payload is staged.
    Forward,
    /// Not on the list, or not PPv2 -- headerless means it reached the listener
    /// directly -- and what it counts as.
    Deny(Counted),
}

/// The chunks of a datagram, one after the other.
pub open spec fn joined(chunks: Seq<&[u8]>) -> Seq<u8>
    decreases chunks.len(),
{
    if chunks.len() == 0 {
        seq![]
    } else {
        joined(chunks.drop_last()) + chunks.last()@
    }
}

fn join(chunks: &[&[u8]]) -> (r: Vec<u8>)
    ensures
        r@ == joined(chunks@),
{
    let mut out: Vec<u8> = Vec::new();
    let mut i: usize = 0;
    while i < chunks.len()
        invariant
            i <= chunks@.len(),
            out@ == joined(chunks@.take(i as int)),
        decreases chunks@.len() - i,
    {
        let ghost before = out@;
        assert(chunks@.take(i + 1).drop_last() =~= chunks@.take(i as int));
        out.extend_from_slice(chunks[i]);
        assert(out@ =~= before + chunks@[i as int]@);
        i += 1;
    }
    assert(chunks@.take(i as int) =~= chunks@);
    out
}

/// What is left of a datagram behind its header.
fn behind(buf: &[u8], from: usize, out: &mut Vec<u8>)
    requires
        from <= buf@.len(),
    ensures
        final(out)@ == buf@.skip(from as int),
{
    out.clear();
    let mut i: usize = from;
    while i < buf.len()
        invariant
            from <= i <= buf@.len(),
            out@ == buf@.subrange(from as int, i as int),
        decreases buf@.len() - i,
    {
        out.push(buf[i]);
        i += 1;
        assert(out@ =~= buf@.subrange(from as int, i as int));
    }
    assert(out@ =~= buf@.skip(from as int));
}

/// What is handed on of a datagram, where it is.
pub open spec fn forwarded(c: Config, scheme: Option<SchemeView>, buf: Seq<u8>) -> Option<Seq<u8>> {
    match (scheme, parsed(buf)) {
        (Some(s), Ok(h)) if permitted(
            c.allow@,
            scope_list(c.scopes),
            seq![],
            be(synthesized(s, h)) as u128,
        ) => Some(buf.skip(h.len as int)),
        _ => None,
    }
}

impl Ppv2AuthFilter {
    /// The config that the filter judges by.
    pub closed spec fn config(&self) -> Config {
        *self.cfg
    }

    /// A filter with nothing staged.
    pub fn new(cfg: Arc<Config>) -> (r: Ppv2AuthFilter)
        ensures
            r.config() == *cfg,
            r@ == Seq::<u8>::empty(),
    {
        Ppv2AuthFilter { cfg, payload: Vec::new() }
    }

    /// Judge by the config as it is expanded now: a subscriber's rules move with the
    /// published table.
    pub fn follow(&mut self, cfg: Arc<Config>)
        ensures
            final(self).config() == *cfg,
            final(self)@ == old(self)@,
    {
        self.cfg = cfg;
    }

    /// Judge a datagram; `table` is the one that is published. Datagrams are
    /// self-contained: a short one is simply not PPv2.
    pub fn on_data(&mut self, table: Option<&Table>, chunks: &[&[u8]]) -> (r: Decision)
        ensures
            final(self).config() == old(self).config(),
            match (old(self).config().goes_by(table), parsed(joined(chunks@))) {
                (None, _) => r == Decision::Deny(Counted::Denied) && final(self)@ == old(self)@,
                (Some(_), Err(_)) => r == Decision::Deny(Counted::NotPpv2) && final(self)@ == old(
                    self,
                )@,
                (Some(s), Ok(h)) => if permitted(
                    old(self).config().allow@,
                    scope_list(old(self).config().scopes),
                    seq![],
                    be(synthesized(s, h)) as u128,
                ) {
                    r == Decision::Forward && final(self)@ == joined(chunks@).skip(h.len as int)
                } else {
                    r == Decision::Deny(Counted::Denied) && final(self)@ == old(self)@
                },
            },
            match forwarded(
                old(self).config(),
                old(self).config().goes_by(table),
                joined(chunks@),
            ) {
                Some(payload) => r == Decision::Forward && final(self)@ == payload,
                None => r is Deny && final(self)@ == old(self)@,
            },
    {
        let s = match self.cfg.scheme_with(table) {
            Some(s) => s,
            None => {
                return Decision::Deny(Counted::Denied);
            },
        };
        let whole = join(chunks);
        match ppv2::parse(&whole) {
            Ok(h) => {
                let addr = synthesize(s, &h);
                if self.cfg.permits_unscoped(to_u128(addr)) {
                    proof {
                        ppv2::law_header_is_bounded(whole@, h@);
                    }
                    behind(&whole, h.len, &mut self.payload);
                    Decision::Forward
                } else {
                    Decision::Deny(Counted::Denied)
                }
            },
            Err(_) => Decision::Deny(Counted::NotPpv2),
        }
    }

    /// The stripped payload of the last datagram that was forwarded.
    pub fn payload(&self) -> (r: &Vec<u8>)
        ensures
            r@ == self@,
    {
        &self.payload
    }

    /// What to tell the host: `stored` says whether it took the payload.
    pub fn status(&self, decision: Decision, stored: bool) -> (r: Status)
        ensures
            r == if decision is Forward && stored {
                Status::Continue
            } else {
                Status::StopIteration
            },
    {
        match decision {
            Decision::Forward => if stored {
                Status::Continue
            } else {
                Status::StopIteration
            },
            Decision::Deny(_) => Status::StopIteration,
        }
    }
}

/// How a datagram is cut into chunks makes no difference.
pub proof fn law_chunks_are_one_datagram(a: Seq<&[u8]>, chunk: &[u8], b: Seq<&[u8]>)
    ensures
        joined(seq![chunk]) == chunk@,
        joined(a + b) == joined(a) + joined(b),
    decreases b.len(),
{
    let one = seq![chunk];
    assert(one.drop_last() =~= seq![]);
    assert(joined(one.drop_last()) =~= seq![]);
    assert(joined(one) =~= chunk@);
    if b.len() == 0 {
        assert(a + b =~= a);
        assert(joined(a) + joined(b) =~= joined(a));
    } else {
        law_chunks_are_one_datagram(a, chunk, b.drop_last());
        assert((a + b).drop_last() =~= a + b.drop_last());
        assert((a + b).last() == b.last());
        assert(joined(a + b) =~= joined(a) + joined(b));
    }
}

/// A datagram is handed on exactly where a TCP connection with the same header would be
/// let go on by a filter that enforces the same rules.
pub proof fn law_datagrams_are_judged_as_connections_are(
    c: Config,
    v: SchemeView,
    buf: Seq<u8>,
    h: HeaderView,
)
    requires
        parsed(buf) == Ok::<HeaderView, ppv2::Error>(h),
    ensures
        ({
            let id = be(synthesized(v, h)) as u128;
            let seen = next(unseen(true), Event::Data { scheme: Some(v), buf });
            let covered = permitted(c.allow@, scope_list(c.scopes), seq![], id);
            let answer = Event::Labelled { id, accepted: true, permitted: covered };
            forwarded(c, Some(v), buf) is Some <==> admits(seen, answer)
        }),
{
}

/// What is handed on is the payload behind the header, all of it and nothing else; without
/// a whole header or a table nothing is.
pub proof fn law_payload_is_handed_on_whole(
    c: Config,
    v: SchemeView,
    family: u8,
    body: Seq<u8>,
    payload: Seq<u8>,
    buf: Seq<u8>,
)
    requires
        body.len() <= 240,
    ensures
        forwarded(c, Some(v), wire(family, body, payload)) matches Some(p) ==> p == payload,
        parsed(buf) is Err ==> forwarded(c, Some(v), buf) is None,
        forwarded(c, None, buf) is None,
{
    let all = wire(family, body, payload);
    if let Ok(h) = parsed(all) {
        ppv2::law_wire_is_a_header_and_a_payload(family, body, payload);
        assert(all.skip(h.len as int) =~= payload);
    }
}

} // verus!
