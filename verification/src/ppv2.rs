//! PROXY protocol v2 as AWS Network Load Balancers send it.
//!
//! Deliberately not a general parser: everything the load balancer never emits
//! is rejected rather than handled.
//!
//! ```text
//!   byte 12  0x21             version 2 + PROXY
//!   byte 13  0x1_ / 0x2_      IPv4 / IPv6 (the transport nibble is not read)
//!   14..16   length of what follows, big endian
//!   then     source, destination, source port, destination port, TLVs
//! ```
//!
//! A header is parsed only once it is complete; until then the error says how
//! many bytes there must be in total.

use vstd::prelude::*;
use vstd::slice::slice_subrange;

verus! {

pub const SIGNATURE: [u8; 12] = [
    0x0d, 0x0a, 0x0d, 0x0a, 0x00, 0x0d, 0x0a, 0x51, 0x55, 0x49, 0x54, 0x0a,
];

pub const TLV_AWS: u8 = 0xea;

pub const AWS_SUBTYPE_VPCE_ID: u8 = 0x01;

/// The longest header that is read. What `Need` asks for is buffered for every
/// connection, so a header that declares more is refused instead.
pub const MAX_HEADER: usize = 256;

/// Version 2 + PROXY, the only 13th byte that is accepted.
const V2_PROXY: u8 = 0x21;

#[derive(Debug, Clone, Copy, PartialEq, Eq)]
pub enum Error {
    /// Not enough bytes yet: this many are needed in total.
    Need(usize),
    /// Not a header that is accepted here.
    Invalid,
}

#[derive(Debug, Clone, Copy, PartialEq, Eq)]
pub struct Header<'a> {
    /// Total header length; the payload starts here.
    pub len: usize,
    /// Source address: the first 4 bytes for IPv4, all 16 for IPv6.
    pub src: [u8; 16],
    pub src_port: u16,
    pub is_v6: bool,
    /// The PrivateLink endpoint id, or empty.
    pub vpce: &'a [u8],
}

/// The value of a header, free of the buffer it was read from.
#[verifier::ext_equal]
pub struct HeaderView {
    pub len: nat,
    pub src: Seq<u8>,
    pub src_port: u16,
    pub is_v6: bool,
    pub vpce: Seq<u8>,
}

impl<'a> View for Header<'a> {
    type V = HeaderView;

    open spec fn view(&self) -> HeaderView {
        HeaderView {
            len: self.len as nat,
            src: self.src@,
            src_port: self.src_port,
            is_v6: self.is_v6,
            vpce: self.vpce@,
        }
    }
}

/// Two bytes read in network order.
pub open spec fn be16(hi: u8, lo: u8) -> int {
    hi * 256 + lo
}

/// `buf` agrees with the signature as far as both go.
pub open spec fn starts_like_signature(buf: Seq<u8>) -> bool {
    forall|i: int| 0 <= i < buf.len() && i < 12 ==> #[trigger] buf[i] == SIGNATURE@[i]
}

/// Length that the fixed part declares for the whole header.
pub open spec fn declared_len(buf: Seq<u8>) -> int {
    16 + be16(buf[14], buf[15])
}

/// Bytes of one address of the family.
pub open spec fn addr_size(is_v6: bool) -> int {
    if is_v6 { 16 } else { 4 }
}

/// The endpoint id that a run of TLVs carries: the value of the first endpoint
/// TLV, or nothing. A TLV that claims more than is present ends the run.
pub open spec fn endpoint_id(tlvs: Seq<u8>) -> Seq<u8>
    decreases tlvs.len(),
{
    if tlvs.len() < 3 || tlvs.len() < 3 + be16(tlvs[1], tlvs[2]) {
        seq![]
    } else {
        let tl = be16(tlvs[1], tlvs[2]);
        if tlvs[0] == TLV_AWS && tl > 1 && tlvs[3] == AWS_SUBTYPE_VPCE_ID {
            tlvs.subrange(4, 3 + tl)
        } else {
            endpoint_id(tlvs.skip(3 + tl))
        }
    }
}

/// What a complete header of the family says.
pub open spec fn header_of(buf: Seq<u8>, is_v6: bool) -> HeaderView {
    let len = declared_len(buf);
    let size = addr_size(is_v6);
    HeaderView {
        len: len as nat,
        src: Seq::new(16, |i: int| if i < size { buf[16 + i] } else { 0 }),
        src_port: be16(buf[16 + 2 * size], buf[17 + 2 * size]) as u16,
        is_v6,
        vpce: endpoint_id(buf.subrange(16 + 2 * size + 4, len)),
    }
}

/// What the bytes that have arrived so far mean.
pub open spec fn parsed(buf: Seq<u8>) -> Result<HeaderView, Error> {
    if !starts_like_signature(buf) {
        Err(Error::Invalid)
    } else if buf.len() < 16 {
        Err(Error::Need(16))
    } else if buf[12] != 0x21 || declared_len(buf) > MAX_HEADER {
        Err(Error::Invalid)
    } else if buf.len() < declared_len(buf) {
        Err(Error::Need(declared_len(buf) as usize))
    } else if buf[13] / 16 == 1 && declared_len(buf) >= 16 + 12 {
        Ok(header_of(buf, false))
    } else if buf[13] / 16 == 2 && declared_len(buf) >= 16 + 36 {
        Ok(header_of(buf, true))
    } else {
        Err(Error::Invalid)
    }
}

fn signature_matches(buf: &[u8]) -> (r: bool)
    ensures
        r == starts_like_signature(buf@),
{
    let mut i: usize = 0;
    while i < buf.len() && i < 12
        invariant
            i <= buf@.len(),
            i <= 12,
            forall|j: int| 0 <= j < i ==> #[trigger] buf@[j] == SIGNATURE@[j],
        decreases 12 - i,
    {
        if buf[i] != SIGNATURE[i] {
            assert(buf@[i as int] != SIGNATURE@[i as int]);
            return false;
        }
        i += 1;
    }
    true
}

fn read16(buf: &[u8], at: usize) -> (r: usize)
    requires
        at + 1 < buf@.len(),
    ensures
        r == be16(buf@[at as int], buf@[at + 1]),
        r <= 0xffff,
{
    buf[at] as usize * 256 + buf[at + 1] as usize
}

/// Walk the TLVs from `from` for the endpoint id.
fn find_endpoint<'a>(body: &'a [u8], from: usize) -> (r: &'a [u8])
    requires
        from <= body@.len() <= MAX_HEADER,
    ensures
        r@ == endpoint_id(body@.skip(from as int)),
{
    let mut i: usize = from;
    while i + 3 <= body.len()
        invariant
            from <= i <= body@.len() <= MAX_HEADER,
            endpoint_id(body@.skip(from as int)) == endpoint_id(body@.skip(i as int)),
        decreases body@.len() - i,
    {
        let ghost rest = body@.skip(i as int);
        let tl = read16(body, i + 1);
        let end = i + 3 + tl;
        if end > body.len() {
            return slice_subrange(body, 0, 0);
        }
        if body[i] == TLV_AWS && tl > 1 && body[i + 3] == AWS_SUBTYPE_VPCE_ID {
            let id = slice_subrange(body, i + 4, end);
            assert(id@ =~= rest.subrange(4, 3 + tl));
            return id;
        }
        assert(rest.skip(3 + tl) =~= body@.skip(end as int));
        i = end;
    }
    slice_subrange(body, 0, 0)
}

/// Read the header at the front of `buf`.
pub fn parse<'a>(buf: &'a [u8]) -> (r: Result<Header<'a>, Error>)
    ensures
        match r {
            Ok(h) => parsed(buf@) == Ok::<HeaderView, Error>(h@),
            Err(e) => parsed(buf@) == Err::<HeaderView, Error>(e),
        },
{
    // A client that is not speaking PROXY protocol is rejected on its first
    // bytes, rather than held until 16 have arrived.
    if !signature_matches(buf) {
        return Err(Error::Invalid);
    }
    if buf.len() < 16 {
        return Err(Error::Need(16));
    }
    let len = 16 + read16(buf, 14);
    if buf[12] != V2_PROXY || len > MAX_HEADER {
        return Err(Error::Invalid);
    }
    if buf.len() < len {
        return Err(Error::Need(len));
    }
    // Byte 13 is family and transport; only the family matters.
    let family = buf[13] / 16;
    let is_v6 = family == 2;
    if !is_v6 && family != 1 {
        return Err(Error::Invalid);
    }
    let size: usize = if is_v6 { 16 } else { 4 };
    let addr_end = 16 + 2 * size + 4;
    if len < addr_end {
        return Err(Error::Invalid);
    }
    let mut src: [u8; 16] = [0; 16];
    let mut i: usize = 0;
    while i < size
        invariant
            i <= size <= 16,
            16 + 2 * size + 4 <= buf@.len(),
            src@ =~= Seq::new(16, |j: int| if j < i { buf@[16 + j] } else { 0u8 }),
        decreases size - i,
    {
        src[i] = buf[16 + i];
        i += 1;
    }
    let src_port = read16(buf, 16 + 2 * size) as u16;
    let body = slice_subrange(buf, 0, len);
    let vpce = find_endpoint(body, addr_end);
    assert(body@.skip(addr_end as int) =~= buf@.subrange(addr_end as int, len as int));
    let h = Header { len, src, src_port, is_v6, vpce };
    assert(h@ =~= header_of(buf@, is_v6));
    Ok(h)
}

// --- laws ---------------------------------------------------------------------

proof fn lemma_more_bytes(buf: Seq<u8>, more: Seq<u8>)
    ensures
        forall|i: int| 0 <= i < buf.len() ==> #[trigger] (buf + more)[i] == buf[i],
        starts_like_signature(buf + more) ==> starts_like_signature(buf),
        buf.len() >= 12 && starts_like_signature(buf) ==> starts_like_signature(buf + more),
{
    let all = buf + more;
    if starts_like_signature(all) {
        assert forall|i: int| 0 <= i < buf.len() && i < 12 implies #[trigger] buf[i]
            == SIGNATURE@[i] by {
            assert(all[i] == SIGNATURE@[i]);
        }
    }
    if buf.len() >= 12 && starts_like_signature(buf) {
        assert forall|i: int| 0 <= i < all.len() && i < 12 implies #[trigger] all[i]
            == SIGNATURE@[i] by {
            assert(buf[i] == SIGNATURE@[i]);
        }
    }
}

/// What follows a complete header does not change how it reads.
pub proof fn law_payload_does_not_matter(buf: Seq<u8>, payload: Seq<u8>)
    requires
        parsed(buf) is Ok,
    ensures
        parsed(buf + payload) == parsed(buf),
{
    let all = buf + payload;
    lemma_more_bytes(buf, payload);
    let is_v6 = buf[13] / 16 == 2;
    let from = 16 + 2 * addr_size(is_v6) + 4;
    let len = declared_len(buf);
    assert(all.subrange(from, len) =~= buf.subrange(from, len));
    assert(header_of(all, is_v6) =~= header_of(buf, is_v6));
}

/// Bytes that are not a header never become one.
pub proof fn law_invalid_is_final(buf: Seq<u8>, more: Seq<u8>)
    requires
        parsed(buf) == Err::<HeaderView, Error>(Error::Invalid),
    ensures
        parsed(buf + more) == Err::<HeaderView, Error>(Error::Invalid),
{
    lemma_more_bytes(buf, more);
}

/// A header that has not arrived whole asks for more than is there, and for no
/// more than the whole.
pub proof fn law_incomplete_header_asks_for_more(buf: Seq<u8>, n: int)
    requires
        parsed(buf) is Ok,
        0 <= n < parsed(buf)->Ok_0.len,
    ensures
        parsed(buf.take(n)) matches Err(Error::Need(want)) && n < want <= parsed(buf)->Ok_0.len,
{
    let part = buf.take(n);
    assert(part + buf.skip(n) =~= buf);
    lemma_more_bytes(part, buf.skip(n));
}

/// What is asked for is always more than is there, and never above the cap.
pub proof fn law_need_is_bounded(buf: Seq<u8>, want: usize)
    requires
        parsed(buf) == Err::<HeaderView, Error>(Error::Need(want)),
    ensures
        buf.len() < want <= MAX_HEADER,
{
}

/// A header is never longer than the bytes it was read from, nor than the cap.
pub proof fn law_header_is_bounded(buf: Seq<u8>, h: HeaderView)
    requires
        parsed(buf) == Ok::<HeaderView, Error>(h),
    ensures
        16 < h.len <= buf.len(),
        h.len <= MAX_HEADER,
        h.src.len() == 16,
{
}

/// A whole TLV of any other kind is stepped over, whatever it is and wherever it stands,
/// so an endpoint id is found behind any number of them. One that says it is from AWS
/// but not of an endpoint, or too short to hold an id, is another kind.
pub proof fn law_other_tlvs_are_stepped_over(kind: u8, value: Seq<u8>, rest: Seq<u8>)
    requires
        value.len() < 65536,
        kind != 0xea || value.len() < 2 || value[0] != 1,
    ensures
        endpoint_id(
            seq![kind, (value.len() / 256) as u8, (value.len() % 256) as u8] + value + rest,
        ) == endpoint_id(rest),
{
    let head = seq![kind, (value.len() / 256) as u8, (value.len() % 256) as u8];
    let n = value.len() as int;
    let all = head + value + rest;
    assert(be16(all[1], all[2]) == value.len());
    assert(value.len() > 0 ==> all[3] == value[0]);
    assert(all.skip(3 + n) =~= rest);
}

/// A run that begins with an endpoint TLV has the id that it carries, whatever follows.
pub proof fn law_endpoint_tlv_is_the_id(id: Seq<u8>, rest: Seq<u8>)
    requires
        0 < id.len() < 65535,
    ensures
        endpoint_id(
            seq![0xeau8, ((id.len() + 1) / 256) as u8, ((id.len() + 1) % 256) as u8, 1u8] + id
                + rest,
        ) == id,
{
    let n = (id.len() + 1) as int;
    let head = seq![0xeau8, (n / 256) as u8, (n % 256) as u8, 1u8];
    let all = head + id + rest;
    assert(be16(all[1], all[2]) == n);
    assert(all.subrange(4, 3 + n) =~= id);
}

/// A TLV that is cut short ends the run: nothing is taken from it.
pub proof fn law_cut_tlv_ends_the_run(kind: u8, claimed: int, value: Seq<u8>)
    requires
        value.len() < claimed < 65536,
    ensures
        endpoint_id(seq![kind, (claimed / 256) as u8, (claimed % 256) as u8] + value)
            == Seq::<u8>::empty(),
        endpoint_id(seq![]) == Seq::<u8>::empty(),
        endpoint_id(seq![kind]) == Seq::<u8>::empty(),
{
    let all = seq![kind, (claimed / 256) as u8, (claimed % 256) as u8] + value;
    assert(be16(all[1], all[2]) == claimed);
}

/// The twelve octets that a header begins with.
pub open spec fn opening() -> Seq<u8> {
    seq![
        0x0du8,
        0x0au8,
        0x0du8,
        0x0au8,
        0x00u8,
        0x0du8,
        0x0au8,
        0x51u8,
        0x55u8,
        0x49u8,
        0x54u8,
        0x0au8,
    ]
}

/// A header with this family and body, and what follows it.
pub open spec fn wire(family: u8, body: Seq<u8>, payload: Seq<u8>) -> Seq<u8> {
    opening() + seq![0x21u8, family, (body.len() / 256) as u8, (body.len() % 256) as u8] + body
        + payload
}

proof fn lemma_wire(family: u8, body: Seq<u8>, payload: Seq<u8>)
    requires
        body.len() < 65536,
    ensures
        starts_like_signature(wire(family, body, payload)),
        wire(family, body, payload).len() == 16 + body.len() + payload.len(),
        wire(family, body, payload)[12] == 0x21,
        wire(family, body, payload)[13] == family,
        declared_len(wire(family, body, payload)) == 16 + body.len(),
        forall|i: int| 0 <= i < body.len() ==> #[trigger] wire(family, body, payload)[16 + i] == body[i],
        wire(family, body, payload).subrange(16, 16 + body.len() as int) == body,
{
    let all = wire(family, body, payload);
    assert(opening() =~= SIGNATURE@);
    assert forall|i: int| 0 <= i < all.len() && i < 12 implies #[trigger] all[i]
        == SIGNATURE@[i] by {
        assert(all[i] == opening()[i]);
    }
    assert(be16(all[14], all[15]) == body.len());
    assert(all.subrange(16, 16 + body.len() as int) =~= body);
}

/// A header from an IPv4 client reads as it is laid out: the source address and port,
/// and the endpoint id of its TLVs. What it was sent to, the transport and the payload
/// make no difference.
pub proof fn law_ipv4_header_layout(
    transport: u8,
    src: Seq<u8>,
    dst: Seq<u8>,
    src_port: u16,
    dst_port: Seq<u8>,
    tlvs: Seq<u8>,
    payload: Seq<u8>,
)
    requires
        transport < 16,
        src.len() == 4,
        dst.len() == 4,
        dst_port.len() == 2,
        28 + tlvs.len() <= 256,
    ensures
        ({
            let port = seq![(src_port / 256) as u8, (src_port % 256) as u8];
            let body = src + dst + port + dst_port + tlvs;
            &&& parsed(wire((0x10 + transport) as u8, body, payload)) matches Ok(h)
            &&& h.len == 28 + tlvs.len()
            &&& !h.is_v6
            &&& h.src.len() == 16
            &&& h.src.take(4) == src
            &&& forall|i: int| 4 <= i < 16 ==> #[trigger] h.src[i] == 0
            &&& h.src_port == src_port
            &&& h.vpce == endpoint_id(tlvs)
        }),
{
    let port = seq![(src_port / 256) as u8, (src_port % 256) as u8];
    let body = src + dst + port + dst_port + tlvs;
    let family = (0x10 + transport) as u8;
    let all = wire(family, body, payload);
    lemma_wire(family, body, payload);
    let h = header_of(all, false);
    assert forall|i: int| 0 <= i < 4 implies h.src[i] == src[i] by {
        assert(all[16 + i] == body[i]);
    }
    assert(h.src.take(4) =~= src);
    let (at, end) = (8int, 28 + tlvs.len() as int);
    assert(all[16 + at] == body[at] && all[16 + (at + 1)] == body[at + 1]);
    assert(all.subrange(28, end) =~= tlvs) by {
        assert forall|i: int| 0 <= i < tlvs.len() implies all.subrange(28, end)[i]
            == tlvs[i] by {
            assert(all[16 + (12 + i)] == body[12 + i]);
        }
    }
}

/// The same for an IPv6 client.
pub proof fn law_ipv6_header_layout(
    transport: u8,
    src: Seq<u8>,
    dst: Seq<u8>,
    src_port: u16,
    dst_port: Seq<u8>,
    tlvs: Seq<u8>,
    payload: Seq<u8>,
)
    requires
        transport < 16,
        src.len() == 16,
        dst.len() == 16,
        dst_port.len() == 2,
        52 + tlvs.len() <= 256,
    ensures
        ({
            let port = seq![(src_port / 256) as u8, (src_port % 256) as u8];
            let body = src + dst + port + dst_port + tlvs;
            &&& parsed(wire((0x20 + transport) as u8, body, payload)) matches Ok(h)
            &&& h.len == 52 + tlvs.len()
            &&& h.is_v6
            &&& h.src == src
            &&& h.src_port == src_port
            &&& h.vpce == endpoint_id(tlvs)
        }),
{
    let port = seq![(src_port / 256) as u8, (src_port % 256) as u8];
    let body = src + dst + port + dst_port + tlvs;
    let family = (0x20 + transport) as u8;
    let all = wire(family, body, payload);
    lemma_wire(family, body, payload);
    let h = header_of(all, true);
    assert forall|i: int| 0 <= i < 16 implies h.src[i] == src[i] by {
        assert(all[16 + i] == body[i]);
    }
    assert(h.src =~= src);
    let (at, end) = (32int, 52 + tlvs.len() as int);
    assert(all[16 + at] == body[at] && all[16 + (at + 1)] == body[at + 1]);
    assert(all.subrange(52, end) =~= tlvs) by {
        assert forall|i: int| 0 <= i < tlvs.len() implies all.subrange(52, end)[i]
            == tlvs[i] by {
            assert(all[16 + (36 + i)] == body[36 + i]);
        }
    }
}

/// Nothing else reads as a header: an octet out of place, another version or command,
/// another family, a body too short for its addresses, or a length above the cap is
/// refused as soon as it is there.
pub proof fn law_nothing_else_is_a_header(buf: Seq<u8>)
    ensures
        (exists|i: int| 0 <= i < 12 && i < buf.len() && #[trigger] buf[i] != opening()[i])
            ==> parsed(buf) == Err::<HeaderView, Error>(Error::Invalid),
        buf.len() >= 16 && buf[12] != 0x21 ==> parsed(buf) == Err::<HeaderView, Error>(
            Error::Invalid,
        ),
        buf.len() >= 16 && 256 * buf[14] + buf[15] > 240 ==> parsed(buf) == Err::<
            HeaderView,
            Error,
        >(Error::Invalid),
        buf.len() >= 16 && buf.len() >= 16 + 256 * buf[14] + buf[15] && buf[13] / 16 != 1 && buf[13] / 16 != 2 ==> parsed(buf) == Err::<
            HeaderView,
            Error,
        >(Error::Invalid),
        buf.len() >= 16 && buf.len() >= 16 + 256 * buf[14] + buf[15] && buf[13] / 16 == 1 && 256 * buf[14] + buf[15] < 12 ==> parsed(buf)
            == Err::<HeaderView, Error>(Error::Invalid),
        buf.len() >= 16 && buf.len() >= 16 + 256 * buf[14] + buf[15] && buf[13] / 16 == 2 && 256 * buf[14] + buf[15] < 36 ==> parsed(buf)
            == Err::<HeaderView, Error>(Error::Invalid),
{
    assert(opening() =~= SIGNATURE@);
    if exists|i: int| 0 <= i < 12 && i < buf.len() && #[trigger] buf[i] != opening()[i] {
        let i = choose|i: int| 0 <= i < 12 && i < buf.len() && #[trigger] buf[i] != opening()[i];
        assert(!starts_like_signature(buf)) by {
            if starts_like_signature(buf) {
                assert(buf[i] == SIGNATURE@[i]);
            }
        }
    }
}

/// As much of a header as is there asks for its fixed part first, then for all of it.
pub proof fn law_start_of_a_header_asks_for_the_rest(family: u8, body: Seq<u8>, n: int)
    requires
        0 <= n < 16 + body.len(),
        body.len() <= 240,
    ensures
        parsed(wire(family, body, seq![]).take(n)) == Err::<HeaderView, Error>(
            Error::Need(
                if n < 16 {
                    16
                } else {
                    (16 + body.len()) as usize
                },
            ),
        ),
{
    let all = wire(family, body, seq![]);
    let part = all.take(n);
    lemma_wire(family, body, seq![]);
    assert(part + all.skip(n) =~= all);
    lemma_more_bytes(part, all.skip(n));
    if n >= 16 {
        assert(part[12] == all[12] && part[14] == all[14] && part[15] == all[15]);
    }
}

/// A header is as long as its fixed part and its body, and what follows is the payload.
pub proof fn law_wire_is_a_header_and_a_payload(family: u8, body: Seq<u8>, payload: Seq<u8>)
    requires
        body.len() <= 240,
    ensures
        parsed(wire(family, body, payload)) matches Ok(h) ==> h.len == 16 + body.len(),
        wire(family, body, payload).skip(16 + body.len() as int) == payload,
{
    lemma_wire(family, body, payload);
    assert(wire(family, body, payload).skip(16 + body.len() as int) =~= payload);
}

} // verus!
