//! Who owns which address: disjoint stretches of addresses, each with one id.
//!
//! A stretch that two ids claim belongs to neither, but to `SITE_CONTESTED`.

use crate::cidr::{disjoint, within, Range};
use crate::identity::SITE_CONTESTED;
use vstd::prelude::*;

verus! {

/// The addresses from `start` to `end`, both included, and who owns them.
#[derive(Debug, Clone, Copy, PartialEq, Eq)]
pub struct Segment {
    pub start: u128,
    pub end: u128,
    pub id: u16,
}

impl Segment {
    pub open spec fn has(self, x: u128) -> bool {
        self.start <= x <= self.end
    }
}

/// Ascending and disjoint, and neighbours that touch have different owners.
pub open spec fn flat(segs: Seq<Segment>) -> bool {
    &&& forall|k: int| 0 <= k < segs.len() ==> (#[trigger] segs[k]).start <= segs[k].end
    &&& forall|j: int, k: int|
        #![trigger segs[j], segs[k]]
        0 <= j < k < segs.len() ==> segs[j].end < segs[k].start
    &&& forall|j: int, k: int|
        #![trigger segs[j], segs[k]]
        0 <= j < segs.len() && k == j + 1 && k < segs.len() && segs[j].end + 1 == segs[k].start
            ==> segs[j].id != segs[k].id
}

/// Who owns an address.
pub open spec fn at(segs: Seq<Segment>, x: u128) -> Option<u16> {
    if exists|k: int| 0 <= k < segs.len() && (#[trigger] segs[k]).has(x) {
        Some(segs[choose|k: int| 0 <= k < segs.len() && (#[trigger] segs[k]).has(x)].id)
    } else {
        None
    }
}

/// What two claims come to.
pub open spec fn join(a: Option<u16>, b: Option<u16>) -> Option<u16> {
    match (a, b) {
        (None, _) => b,
        (_, None) => a,
        (Some(x), Some(y)) => if x == y { a } else { Some(SITE_CONTESTED) },
    }
}

/// What a set of claimants comes to: nobody, the only one, or a contest.
pub open spec fn settled(claims: spec_fn(u16) -> bool) -> Option<u16> {
    if !exists|id: u16| #[trigger] claims(id) {
        None
    } else if exists|a: u16, b: u16| #[trigger] claims(a) && #[trigger] claims(b) && a != b {
        Some(SITE_CONTESTED)
    } else {
        Some(choose|id: u16| #[trigger] claims(id))
    }
}

/// Claimants from two sides come to what the sides come to, joined.
pub proof fn lemma_settled_join(
    p: spec_fn(u16) -> bool,
    q: spec_fn(u16) -> bool,
    both: spec_fn(u16) -> bool,
)
    requires
        forall|id: u16| #[trigger] both(id) <==> p(id) || q(id),
    ensures
        settled(both) == join(settled(p), settled(q)),
{
    assert(forall|id: u16| #[trigger] p(id) ==> both(id));
    assert(forall|id: u16| #[trigger] q(id) ==> both(id));
}

/// A single claimant owns what it claims.
pub proof fn lemma_settled_one(p: spec_fn(u16) -> bool, id: u16)
    requires
        p(id),
        forall|other: u16| #[trigger] p(other) ==> other == id,
    ensures
        settled(p) == Some(id),
{
}

pub proof fn lemma_settled_same(p: spec_fn(u16) -> bool, q: spec_fn(u16) -> bool)
    requires
        forall|id: u16| #[trigger] p(id) <==> q(id),
    ensures
        settled(p) == settled(q),
{
    assert(p =~= q);
}

pub proof fn lemma_at(segs: Seq<Segment>, k: int, x: u128)
    requires
        flat(segs),
        0 <= k < segs.len(),
        segs[k].has(x),
    ensures
        at(segs, x) == Some(segs[k].id),
{
    let j = choose|j: int| 0 <= j < segs.len() && (#[trigger] segs[j]).has(x);
    if j < k {
        assert(segs[j].end < segs[k].start);
    } else if k < j {
        assert(segs[k].end < segs[j].start);
    }
}

pub fn join_ids(a: Option<u16>, b: Option<u16>) -> (r: Option<u16>)
    ensures
        r == join(a, b),
{
    match (a, b) {
        (None, _) => b,
        (_, None) => a,
        (Some(x), Some(y)) => if x == y {
            a
        } else {
            Some(SITE_CONTESTED)
        },
    }
}

/// Give the addresses from `start` to `end` to `id`, where nothing at or after
/// `start` is owned yet.
fn extend(out: &mut Vec<Segment>, start: u128, end: u128, id: u16)
    requires
        flat(old(out)@),
        start <= end,
        old(out)@.len() > 0 ==> old(out)@.last().end < start,
    ensures
        flat(final(out)@),
        final(out)@.len() > 0,
        final(out)@.last().end == end,
        forall|x: u128|
            #[trigger] at(final(out)@, x) == if start <= x <= end {
                Some(id)
            } else {
                at(old(out)@, x)
            },
{
    let n = out.len();
    let ghost before = out@;
    if n > 0 && out[n - 1].id == id && out[n - 1].end + 1 == start {
        let last = Segment { start: out[n - 1].start, end, id };
        out.set(n - 1, last);
    } else {
        out.push(Segment { start, end, id });
    }
    proof {
        let now = out@;
        assert(flat(now));
        assert forall|x: u128|
            #[trigger] at(now, x) == if start <= x <= end {
                Some(id)
            } else {
                at(before, x)
            } by {
            let m = now.len() - 1;
            if start <= x <= end {
                assert(now[m].has(x));
                lemma_at(now, m, x);
            } else if exists|k: int| 0 <= k < before.len() && (#[trigger] before[k]).has(x) {
                let k = choose|k: int| 0 <= k < before.len() && (#[trigger] before[k]).has(x);
                lemma_at(before, k, x);
                assert(now[k].has(x));
                lemma_at(now, k, x);
            } else {
                assert forall|k: int| 0 <= k < now.len() implies !(#[trigger] now[k]).has(x) by {
                    if k < before.len() {
                        assert(!before[k].has(x));
                    }
                }
            }
        }
    }
}

/// The stretches that the ranges cover, all owned by `id`.
pub fn of_ranges(ranges: &[Range], id: u16) -> (r: Vec<Segment>)
    requires
        disjoint(ranges@),
    ensures
        flat(r@),
        forall|x: u128|
            #[trigger] at(r@, x) == if within(ranges@, x) {
                Some(id)
            } else {
                None
            },
{
    let mut out: Vec<Segment> = Vec::new();
    let mut i: usize = 0;
    while i < ranges.len()
        invariant
            i <= ranges@.len(),
            disjoint(ranges@),
            flat(out@),
            i == 0 ==> out@.len() == 0,
            i > 0 ==> out@.len() > 0 && out@.last().end == ranges@[i - 1].end,
            forall|x: u128|
                #[trigger] at(out@, x) == if within(ranges@.take(i as int), x) {
                    Some(id)
                } else {
                    None
                },
        decreases ranges@.len() - i,
    {
        let r = ranges[i];
        let ghost before = out@;
        assert(i > 0 ==> ranges@[i - 1].end < ranges@[i as int].start);
        extend(&mut out, r.start, r.end, id);
        proof {
            let head = ranges@.take(i as int);
            let more = ranges@.take(i + 1);
            assert forall|x: u128|
                #[trigger] at(out@, x) == if within(more, x) {
                    Some(id)
                } else {
                    None
                } by {
                assert(at(before, x) == if within(head, x) {
                    Some(id)
                } else {
                    None
                });
                if within(head, x) {
                    let k = choose|k: int|
                        0 <= k < head.len() && (#[trigger] head[k]).start <= x <= head[k].end;
                    assert(more[k].start <= x <= more[k].end);
                }
                if r.start <= x <= r.end {
                    assert(more[i as int].start <= x <= more[i as int].end);
                }
                if within(more, x) && !(r.start <= x <= r.end) {
                    let k = choose|k: int|
                        0 <= k < more.len() && (#[trigger] more[k]).start <= x <= more[k].end;
                    assert(head[k].start <= x <= head[k].end);
                }
            }
        }
        i += 1;
    }
    assert(ranges@.take(i as int) =~= ranges@);
    out
}

/// From `pos` to where the answer of `at` may change: the owner, and the last
/// address before the change.
fn stretch(segs: &[Segment], i: usize, pos: u128) -> (r: (Option<u16>, u128))
    requires
        flat(segs@),
        i <= segs@.len(),
        forall|k: int| 0 <= k < i ==> (#[trigger] segs@[k]).end < pos,
        forall|k: int| i <= k < segs@.len() ==> pos <= (#[trigger] segs@[k]).end,
    ensures
        pos <= r.1,
        forall|x: u128| pos <= x <= r.1 ==> #[trigger] at(segs@, x) == r.0,
        forall|k: int|
            i < k < segs@.len() ==> r.1 < (#[trigger] segs@[k]).end,
        i < segs@.len() ==> r.1 <= segs@[i as int].end,
{
    if i == segs.len() {
        assert forall|x: u128| pos <= x <= u128::MAX implies #[trigger] at(segs@, x) == None::<
            u16,
        > by {
            assert forall|k: int| 0 <= k < segs@.len() implies !(#[trigger] segs@[k]).has(x) by {}
        }
        return (None, u128::MAX);
    }
    let s = segs[i];
    assert(segs@[i as int].start <= segs@[i as int].end);
    assert forall|k: int| i < k < segs@.len() implies s.end < (#[trigger] segs@[k]).start by {
        assert(segs@[i as int].end < segs@[k].start);
    }
    if s.start > pos {
        assert forall|x: u128| pos <= x <= s.start - 1 implies #[trigger] at(segs@, x) == None::<
            u16,
        > by {
            assert forall|k: int| 0 <= k < segs@.len() implies !(#[trigger] segs@[k]).has(x) by {}
        }
        (None, s.start - 1)
    } else {
        assert forall|x: u128| pos <= x <= s.end implies #[trigger] at(segs@, x) == Some(s.id) by {
            assert(segs@[i as int].has(x));
            lemma_at(segs@, i as int, x);
        }
        (Some(s.id), s.end)
    }
}

/// The claims of both, joined address by address.
pub fn overlay(a: &[Segment], b: &[Segment]) -> (r: Vec<Segment>)
    requires
        flat(a@),
        flat(b@),
    ensures
        flat(r@),
        forall|x: u128| #[trigger] at(r@, x) == join(at(a@, x), at(b@, x)),
{
    let mut out: Vec<Segment> = Vec::new();
    let mut i: usize = 0;
    let mut j: usize = 0;
    let mut pos: u128 = 0;
    loop
        invariant
            flat(a@),
            flat(b@),
            flat(out@),
            i <= a@.len(),
            j <= b@.len(),
            forall|k: int| 0 <= k < i ==> (#[trigger] a@[k]).end < pos,
            forall|k: int| i <= k < a@.len() ==> pos <= (#[trigger] a@[k]).end,
            forall|k: int| 0 <= k < j ==> (#[trigger] b@[k]).end < pos,
            forall|k: int| j <= k < b@.len() ==> pos <= (#[trigger] b@[k]).end,
            out@.len() > 0 ==> out@.last().end < pos,
            forall|x: u128| x < pos ==> #[trigger] at(out@, x) == join(at(a@, x), at(b@, x)),
            forall|x: u128| x >= pos ==> #[trigger] at(out@, x) is None,
        decreases u128::MAX - pos,
    {
        let (ia, ea) = stretch(a, i, pos);
        let (ib, eb) = stretch(b, j, pos);
        let end = if ea < eb {
            ea
        } else {
            eb
        };
        let ghost before = out@;
        let id = join_ids(ia, ib);
        if let Some(owner) = id {
            extend(&mut out, pos, end, owner);
        }
        proof {
            assert forall|x: u128| x <= end implies #[trigger] at(out@, x) == join(
                at(a@, x),
                at(b@, x),
            ) by {
                if x < pos {
                    assert(at(before, x) == join(at(a@, x), at(b@, x)));
                } else {
                    assert(at(a@, x) == ia);
                    assert(at(b@, x) == ib);
                    assert(at(before, x) is None);
                }
            }
            assert forall|x: u128| x > end implies #[trigger] at(out@, x) is None by {
                assert(at(before, x) is None);
            }
        }
        if end == u128::MAX {
            return out;
        }
        if i < a.len() && a[i].end == end {
            i += 1;
        }
        if j < b.len() && b[j].end == end {
            j += 1;
        }
        pos = end + 1;
    }
}

/// How many segments start at or before `x`.
fn upto(segs: &[Segment], x: u128) -> (r: usize)
    requires
        flat(segs@),
    ensures
        r <= segs@.len(),
        forall|k: int| 0 <= k < r ==> (#[trigger] segs@[k]).start <= x,
        forall|k: int| r <= k < segs@.len() ==> x < (#[trigger] segs@[k]).start,
{
    let mut lo: usize = 0;
    let mut hi: usize = segs.len();
    while lo < hi
        invariant
            lo <= hi <= segs@.len(),
            flat(segs@),
            forall|k: int| 0 <= k < lo ==> (#[trigger] segs@[k]).start <= x,
            forall|k: int| hi <= k < segs@.len() ==> x < (#[trigger] segs@[k]).start,
        decreases hi - lo,
    {
        let mid = lo + (hi - lo) / 2;
        if segs[mid].start <= x {
            assert forall|k: int| 0 <= k <= mid implies (#[trigger] segs@[k]).start <= x by {
                assert(k == mid || segs@[k].end < segs@[mid as int].start);
            }
            lo = mid + 1;
        } else {
            assert forall|k: int| mid <= k < segs@.len() implies x < (#[trigger] segs@[k]).start by {
                assert(k == mid || segs@[mid as int].end < segs@[k].start);
            }
            hi = mid;
        }
    }
    lo
}

/// Who owns an address.
pub fn lookup(segs: &[Segment], x: u128) -> (r: Option<u16>)
    requires
        flat(segs@),
    ensures
        r == at(segs@, x),
{
    let i = upto(segs, x);
    if i > 0 && x <= segs[i - 1].end {
        proof {
            assert(segs@[i - 1].has(x));
            lemma_at(segs@, i - 1, x);
        }
        Some(segs[i - 1].id)
    } else {
        proof {
            assert forall|k: int| 0 <= k < segs@.len() implies !(#[trigger] segs@[k]).has(x) by {
                if k < i - 1 {
                    assert(segs@[k].end < segs@[i - 1].start);
                }
            }
        }
        None
    }
}

/// `id` owns every address from `start` to `end`.
pub open spec fn owns(segs: Seq<Segment>, start: u128, end: u128, id: u16) -> bool {
    forall|x: u128| start <= x <= end ==> #[trigger] at(segs, x) == Some(id)
}

/// Who owns every address from `start` to `end`. Neighbours that touch have
/// different owners, so one segment must cover it all.
pub fn lookup_range(segs: &[Segment], start: u128, end: u128) -> (r: Option<u16>)
    requires
        flat(segs@),
        start <= end,
    ensures
        match r {
            Some(id) => owns(segs@, start, end, id),
            None => forall|id: u16| !#[trigger] owns(segs@, start, end, id),
        },
{
    let i = upto(segs, start);
    if i > 0 && end <= segs[i - 1].end {
        proof {
            assert forall|x: u128| start <= x <= end implies #[trigger] at(segs@, x) == Some(
                segs@[i - 1].id,
            ) by {
                assert(segs@[i - 1].has(x));
                lemma_at(segs@, i - 1, x);
            }
        }
        Some(segs[i - 1].id)
    } else {
        proof {
            assert forall|id: u16| !#[trigger] owns(segs@, start, end, id) by {
                if owns(segs@, start, end, id) {
                    assert(at(segs@, start) == Some(id));
                    let k = choose|k: int|
                        0 <= k < segs@.len() && (#[trigger] segs@[k]).has(start);
                    assert(k < i);
                    if k < i - 1 {
                        assert(segs@[k].end < segs@[i - 1].start);
                    }
                    lemma_at(segs@, k, start);
                    let x = (segs@[k].end + 1) as u128;
                    assert(start <= x <= end);
                    assert(at(segs@, x) == Some(id));
                    let m = choose|m: int| 0 <= m < segs@.len() && (#[trigger] segs@[m]).has(x);
                    lemma_at(segs@, m, x);
                    if m < k {
                        assert(segs@[m].end < segs@[k].start);
                    }
                    assert(m > k);
                    assert(segs@[k].end < segs@[k + 1].start);
                    if m > k + 1 {
                        assert(segs@[k + 1].end < segs@[m].start);
                    }
                    assert(segs@[k].id != segs@[k + 1].id);
                }
            }
        }
        None
    }
}

// --- laws ---------------------------------------------------------------------

/// Two claims come to the one that is there, to the id that both are of, or to site 0
/// where they are of different ones, whichever comes first.
pub proof fn law_different_claims_come_to_nobody(a: Option<u16>, b: Option<u16>, x: u16, y: u16)
    ensures
        join(a, None) == a,
        join(None, a) == a,
        join(Some(x), Some(x)) == Some(x),
        x != y ==> join(Some(x), Some(y)) == Some(0u16),
        join(a, b) == join(b, a),
{
}

/// Claimants come to nobody where there are none, to the only one, or to site 0.
pub proof fn law_claimants_come_to_one(p: spec_fn(u16) -> bool, a: u16, b: u16)
    ensures
        (forall|id: u16| !#[trigger] p(id)) ==> settled(p) is None,
        p(a) && (forall|id: u16| #[trigger] p(id) ==> id == a) ==> settled(p) == Some(a),
        p(a) && p(b) && a != b ==> settled(p) == Some(0u16),
{
}

/// An address is the one's whose segment holds it, and nobody's where none does.
pub proof fn law_segments_own_what_they_hold(segs: Seq<Segment>, x: u128, k: int)
    requires
        flat(segs),
    ensures
        0 <= k < segs.len() && segs[k].start <= x <= segs[k].end ==> at(segs, x) == Some(
            segs[k].id,
        ),
        (forall|j: int| 0 <= j < segs.len() ==> !((#[trigger] segs[j]).start <= x <= segs[j].end))
            ==> at(segs, x) is None,
{
    if 0 <= k < segs.len() && segs[k].start <= x <= segs[k].end {
        lemma_at(segs, k, x);
    }
    if forall|j: int| 0 <= j < segs.len() ==> !((#[trigger] segs[j]).start <= x <= segs[j].end) {
        assert(forall|j: int| 0 <= j < segs.len() ==> !(#[trigger] segs[j]).has(x));
    }
}

} // verus!
