//! IPv6 CIDR allowlist. Collapsed disjoint ranges plus a binary search, which is
//! enough because an allowlist needs "inside ANY range", not longest-prefix-wins.

use crate::ip::{read_v6, v6};
use crate::order::{in_order, lemma_same_values, sorted, Ordered};
use crate::prefix::{be, block, covers, law_blocks_nest, lemma_be_bound, lemma_block_is_range};
use crate::prefix::{lemma_pow2_128, number_of, range_of};
use crate::text::{
    chars_of, find, find_char, lemma_find_is, lemma_uint_bound, read_uint, texts, uint,
};
use vstd::prelude::*;
use vstd::slice::slice_subrange;

verus! {

// --- the list -----------------------------------------------------------------

/// Entries are separated by commas and white space.
pub open spec fn is_separator(c: char) -> bool {
    c == ',' || c == ' ' || c == '\t' || c == '\r' || c == '\n'
}

/// Number of characters before the first separator.
pub open spec fn word_len(s: Seq<char>) -> int
    decreases s.len(),
{
    if s.len() == 0 || is_separator(s[0]) {
        0
    } else {
        1 + word_len(s.drop_first())
    }
}

/// The entries of a list: the longest stretches without a separator.
pub open spec fn entries(s: Seq<char>) -> Seq<Seq<char>>
    decreases s.len(),
{
    if s.len() == 0 {
        seq![]
    } else if is_separator(s[0]) {
        entries(s.drop_first())
    } else {
        proof {
            lemma_word_len(s);
        }
        seq![s.take(word_len(s))] + entries(s.skip(word_len(s)))
    }
}

/// The entries of several lists, one after the other.
pub open spec fn entries_of(lists: Seq<Seq<char>>) -> Seq<Seq<char>>
    decreases lists.len(),
{
    if lists.len() == 0 {
        seq![]
    } else {
        entries_of(lists.drop_last()) + entries(lists.last())
    }
}

/// The addresses that agree with `base` on their leading `bits` bits.
pub struct Block {
    pub base: int,
    pub bits: int,
}

impl Block {
    pub open spec fn valid(self) -> bool {
        0 <= self.base <= u128::MAX && 0 <= self.bits <= 128
    }

    pub open spec fn contains(self, x: u128) -> bool {
        covers(self.base, self.bits, x as int)
    }

    pub open spec fn first(self) -> int {
        self.base - self.base % block(self.bits)
    }

    pub open spec fn last(self) -> int {
        self.first() + block(self.bits) - 1
    }
}

/// What one entry, `address/width`, stands for.
pub open spec fn cidr(s: Seq<char>) -> Result<Block, Seq<char>> {
    let k = find(s, '/');
    if k == s.len() {
        Err("missing prefix length"@)
    } else {
        match v6(s.take(k)) {
            None => Err("bad IPv6 address"@),
            Some(o) => match uint(s.skip(k + 1), u32::MAX as int) {
                None => Err("bad prefix length"@),
                Some(bits) => if bits > 128 {
                    Err("prefix length above 128"@)
                } else {
                    Ok(Block { base: be(o), bits })
                },
            },
        }
    }
}

/// What a run of entries stands for, or what is wrong with the first bad one.
pub open spec fn blocks(words: Seq<Seq<char>>) -> Result<Seq<Block>, Seq<char>>
    decreases words.len(),
{
    if words.len() == 0 {
        Ok(seq![])
    } else {
        match blocks(words.drop_last()) {
            Err(e) => Err(e),
            Ok(bs) => match cidr(words.last()) {
                Err(e) => Err(e),
                Ok(b) => Ok(bs.push(b)),
            },
        }
    }
}

/// Some block holds the address.
pub open spec fn admitted(bs: Seq<Block>, x: u128) -> bool {
    exists|i: int| 0 <= i < bs.len() && (#[trigger] bs[i]).contains(x)
}

pub proof fn lemma_word_len(s: Seq<char>)
    ensures
        0 <= word_len(s) <= s.len(),
        s.len() > 0 && !is_separator(s[0]) ==> word_len(s) > 0,
        word_len(s) < s.len() ==> is_separator(s[word_len(s)]),
    decreases s.len(),
{
    if s.len() > 0 && !is_separator(s[0]) {
        lemma_word_len(s.drop_first());
    }
}

proof fn lemma_word_len_is(s: Seq<char>, k: int)
    requires
        0 <= k <= s.len(),
        forall|i: int| 0 <= i < k ==> !is_separator(#[trigger] s[i]),
        k < s.len() ==> is_separator(s[k]),
    ensures
        word_len(s) == k,
    decreases k,
{
    if k > 0 {
        let t = s.drop_first();
        assert forall|i: int| 0 <= i < k - 1 implies !is_separator(#[trigger] t[i]) by {
            assert(t[i] == s[i + 1]);
        }
        lemma_word_len_is(t, k - 1);
        assert(!is_separator(s[0]));
    }
}

pub proof fn lemma_blocks_append(a: Seq<Seq<char>>, b: Seq<Seq<char>>)
    ensures
        blocks(a) is Err ==> blocks(a + b) == blocks(a),
        blocks(a) is Ok && blocks(b) is Err ==> blocks(a + b) == blocks(b),
        blocks(a) is Ok && blocks(b) is Ok ==> blocks(a + b) == Ok::<Seq<Block>, Seq<char>>(
            blocks(a)->Ok_0 + blocks(b)->Ok_0,
        ),
    decreases b.len(),
{
    if b.len() == 0 {
        assert(a + b =~= a);
        if blocks(a) is Ok {
            assert(blocks(a)->Ok_0 + seq![] =~= blocks(a)->Ok_0);
        }
    } else {
        lemma_blocks_append(a, b.drop_last());
        assert((a + b).drop_last() =~= a + b.drop_last());
        assert((a + b).last() == b.last());
        if blocks(a) is Ok && blocks(b) is Ok {
            assert(blocks(a)->Ok_0 + blocks(b)->Ok_0 =~= (blocks(a)->Ok_0 + blocks(
                b.drop_last(),
            )->Ok_0).push(cidr(b.last())->Ok_0));
        }
    }
}

// --- ranges -------------------------------------------------------------------

/// The addresses from `start` to `end`, both included.
#[derive(Debug, Clone, Copy, PartialEq, Eq)]
pub struct Range {
    pub start: u128,
    pub end: u128,
}

impl Ordered for Range {
    open spec fn before(&self, other: &Self) -> bool {
        self.start <= other.start
    }

    proof fn lemma_total(a: &Self, b: &Self) {
    }

    proof fn lemma_transitive(a: &Self, b: &Self, c: &Self) {
    }

    fn is_before(&self, other: &Self) -> (r: bool) {
        self.start <= other.start
    }
}

/// Some range holds the address.
pub open spec fn within(rs: Seq<Range>, x: u128) -> bool {
    exists|k: int| 0 <= k < rs.len() && (#[trigger] rs[k]).start <= x <= rs[k].end
}

/// In ascending order, and no address in two of them.
pub open spec fn disjoint(rs: Seq<Range>) -> bool {
    &&& forall|k: int| 0 <= k < rs.len() ==> (#[trigger] rs[k]).start <= rs[k].end
    &&& forall|j: int, k: int|
        #![trigger rs[j], rs[k]]
        0 <= j < k < rs.len() ==> rs[j].end < rs[k].start
}

/// `r` is the range of one of the blocks.
pub open spec fn spans_one(bs: Seq<Block>, r: Range) -> bool {
    exists|i: int|
        0 <= i < bs.len() && (#[trigger] bs[i]).first() == r.start && bs[i].last() == r.end
}

/// One of the ranges holds the whole block.
pub open spec fn holds(rs: Seq<Range>, b: Block) -> bool {
    exists|k: int|
        0 <= k < rs.len() && (#[trigger] rs[k]).start <= b.first() && b.last() <= rs[k].end
}

/// The ranges are the blocks, less those that lie inside another.
pub open spec fn collapsed(bs: Seq<Block>, rs: Seq<Range>) -> bool {
    &&& disjoint(rs)
    &&& forall|k: int| 0 <= k < rs.len() ==> spans_one(bs, #[trigger] rs[k])
    &&& forall|i: int| 0 <= i < bs.len() ==> holds(rs, #[trigger] bs[i])
}

pub open spec fn all_valid(bs: Seq<Block>) -> bool {
    forall|i: int| 0 <= i < bs.len() ==> (#[trigger] bs[i]).valid()
}

proof fn lemma_block(b: Block, x: u128)
    requires
        b.valid(),
    ensures
        b.contains(x) <==> b.first() <= x <= b.last(),
{
    lemma_block_is_range(b.base, b.bits, x as int);
}

/// Every entry that reads stands for a block of addresses.
pub proof fn lemma_blocks_valid(words: Seq<Seq<char>>)
    ensures
        blocks(words) matches Ok(bs) ==> all_valid(bs) && bs.len() == words.len(),
    decreases words.len(),
{
    if words.len() > 0 {
        lemma_blocks_valid(words.drop_last());
        if cidr(words.last()) is Ok {
            let s = words.last();
            let o = v6(s.take(find(s, '/')))->Some_0;
            lemma_be_bound(o);
            lemma_pow2_128();
            lemma_uint_bound(s.skip(find(s, '/') + 1), u32::MAX as int);
        }
    }
}

/// Collapsing a list neither adds an address to it nor takes one away.
pub proof fn law_collapse_keeps_addresses(bs: Seq<Block>, rs: Seq<Range>, x: u128)
    requires
        all_valid(bs),
        collapsed(bs, rs),
    ensures
        within(rs, x) <==> admitted(bs, x),
{
    if within(rs, x) {
        let k = choose|k: int| 0 <= k < rs.len() && (#[trigger] rs[k]).start <= x <= rs[k].end;
        assert(spans_one(bs, rs[k]));
        let i = choose|i: int|
            0 <= i < bs.len() && (#[trigger] bs[i]).first() == rs[k].start && bs[i].last()
                == rs[k].end;
        lemma_block(bs[i], x);
    }
    if admitted(bs, x) {
        let i = choose|i: int| 0 <= i < bs.len() && (#[trigger] bs[i]).contains(x);
        lemma_block(bs[i], x);
        assert(holds(rs, bs[i]));
    }
}

/// Two ranges that blocks span either nest or have no address in common.
proof fn lemma_ranges_nest(bs: Seq<Block>, r: Range, s: Range)
    requires
        all_valid(bs),
        spans_one(bs, r),
        spans_one(bs, s),
        r.start <= s.start <= r.end,
    ensures
        s.end <= r.end || s.start == r.start,
{
    let i = choose|i: int|
        0 <= i < bs.len() && (#[trigger] bs[i]).first() == r.start && bs[i].last() == r.end;
    let j = choose|j: int|
        0 <= j < bs.len() && (#[trigger] bs[j]).first() == s.start && bs[j].last() == s.end;
    lemma_block(bs[i], s.start);
    lemma_block_is_range(bs[j].base, bs[j].bits, s.start as int);
    lemma_block(bs[j], s.start);
    if bs[j].bits >= bs[i].bits {
        lemma_block(bs[j], s.end);
        law_blocks_nest(
            bs[j].base,
            bs[j].bits,
            bs[i].base,
            bs[i].bits,
            s.start as int,
            s.end as int,
        );
        lemma_block(bs[i], s.end);
    } else {
        lemma_block_is_range(bs[i].base, bs[i].bits, r.start as int);
        lemma_block(bs[i], r.start);
        law_blocks_nest(
            bs[i].base,
            bs[i].bits,
            bs[j].base,
            bs[j].bits,
            s.start as int,
            r.start as int,
        );
        lemma_block(bs[j], r.start);
    }
}

// --- the set ------------------------------------------------------------------

/// A set of addresses.
#[derive(Debug)]
pub struct CidrSet {
    ranges: Vec<Range>,
    /// First start and last end. Empty set is (MAX, 0), which nothing satisfies.
    span: (u128, u128),
}

impl View for CidrSet {
    type V = Seq<Range>;

    closed spec fn view(&self) -> Seq<Range> {
        self.ranges@
    }
}

impl Default for CidrSet {
    fn default() -> (r: Self)
        ensures
            r@ == Seq::<Range>::empty(),
    {
        CidrSet { ranges: Vec::new(), span: (u128::MAX, 0) }
    }
}

impl CidrSet {
    #[verifier::type_invariant]
    spec fn well_formed(self) -> bool {
        &&& disjoint(self.ranges@)
        &&& if self.ranges@.len() == 0 {
            self.span == (u128::MAX, 0u128)
        } else {
            self.span == (self.ranges@[0].start, self.ranges@.last().end)
        }
    }

    /// Last range whose start <= addr, then one bounds check -- disjoint+sorted,
    /// so at most one can contain it.
    pub fn contains(&self, addr: u128) -> (r: bool)
        ensures
            r == within(self@, addr),
    {
        proof {
            use_type_invariant(self);
        }
        if addr < self.span.0 || addr > self.span.1 {
            proof {
                let n = self.ranges@.len();
                assert forall|k: int| 0 <= k < n implies !((#[trigger] self@[k]).start <= addr
                    <= self@[k].end) by {
                    assert(k == 0 || self.ranges@[0].end < self.ranges@[k].start);
                    assert(k == n - 1 || self.ranges@[k].end < self.ranges@[n - 1].start);
                }
            }
            return false;
        }
        let i = self.upto(addr);
        if i > 0 && addr <= self.ranges[i - 1].end {
            assert(self@[i - 1].start <= addr <= self@[i - 1].end);
            true
        } else {
            proof {
                assert forall|k: int| 0 <= k < self@.len() implies !((#[trigger] self@[k]).start
                    <= addr <= self@[k].end) by {
                    if k < i - 1 {
                        assert(self.ranges@[k].end < self.ranges@[i - 1].start);
                    }
                }
            }
            false
        }
    }

    /// How many ranges start at or before `addr`.
    fn upto(&self, addr: u128) -> (r: usize)
        ensures
            r <= self@.len(),
            forall|k: int| 0 <= k < r ==> (#[trigger] self@[k]).start <= addr,
            forall|k: int| r <= k < self@.len() ==> addr < (#[trigger] self@[k]).start,
    {
        proof {
            use_type_invariant(self);
        }
        let mut lo: usize = 0;
        let mut hi: usize = self.ranges.len();
        while lo < hi
            invariant
                lo <= hi <= self@.len(),
                self@ == self.ranges@,
                disjoint(self@),
                forall|k: int| 0 <= k < lo ==> (#[trigger] self@[k]).start <= addr,
                forall|k: int| hi <= k < self@.len() ==> addr < (#[trigger] self@[k]).start,
            decreases hi - lo,
        {
            let mid = lo + (hi - lo) / 2;
            if self.ranges[mid].start <= addr {
                assert forall|k: int| 0 <= k <= mid implies (#[trigger] self@[k]).start <= addr by {
                    assert(k == mid || self@[k].end < self@[mid as int].start);
                }
                lo = mid + 1;
            } else {
                assert forall|k: int| mid <= k < self@.len() implies addr < (
                #[trigger] self@[k]).start by {
                    assert(k == mid || self@[mid as int].end < self@[k].start);
                }
                hi = mid;
            }
        }
        lo
    }

    pub fn len(&self) -> (r: usize)
        ensures
            r == self@.len(),
    {
        self.ranges.len()
    }

    pub fn is_empty(&self) -> (r: bool)
        ensures
            r == (self@.len() == 0),
    {
        self.ranges.len() == 0
    }

    /// The ranges, in ascending order.
    pub fn ranges(&self) -> (r: &Vec<Range>)
        ensures
            r@ == self@,
            disjoint(self@),
    {
        proof {
            use_type_invariant(self);
        }
        &self.ranges
    }
}

// --- building one -------------------------------------------------------------

/// What building a set from these entries gives.
pub open spec fn built(words: Seq<Seq<char>>, r: Result<CidrSet, &'static str>) -> bool {
    match r {
        Ok(set) => {
            &&& blocks(words) matches Ok(bs)
            &&& collapsed(bs, set@)
            &&& forall|x: u128| within(set@, x) <==> #[trigger] admitted(bs, x)
        },
        Err(e) => blocks(words) == Err::<Seq<Block>, Seq<char>>(e@),
    }
}

/// IPv6 only. Returns the inclusive range the prefix covers.
fn parse_cidr(text: &[char]) -> (r: Result<Range, &'static str>)
    ensures
        match r {
            Ok(range) => {
                &&& cidr(text@) matches Ok(b)
                &&& b.valid()
                &&& range.start == b.first()
                &&& range.end == b.last()
            },
            Err(e) => cidr(text@) == Err::<Block, Seq<char>>(e@),
        },
{
    let slash = find_char(text, '/');
    if slash == text.len() {
        return Err("missing prefix length");
    }
    let addr = slice_subrange(text, 0, slash);
    let width = slice_subrange(text, slash + 1, text.len());
    assert(addr@ =~= text@.take(slash as int));
    assert(width@ =~= text@.skip(slash + 1));
    let octets = match read_v6(addr) {
        Some(o) => o,
        None => {
            return Err("bad IPv6 address");
        },
    };
    let bits = match read_uint(width, u32::MAX) {
        Some(b) => b,
        None => {
            return Err("bad prefix length");
        },
    };
    if bits > 128 {
        return Err("prefix length above 128");
    }
    let (start, end) = range_of(number_of(&octets), bits as u8);
    Ok(Range { start, end })
}

/// The ranges of the entries of one list, at the end of `raw`.
fn gather(list: &str, raw: &mut Vec<Range>) -> (r: Result<(), &'static str>)
    ensures
        match r {
            Ok(_) => {
                &&& blocks(entries(list@)) matches Ok(bs)
                &&& all_valid(bs)
                &&& final(raw)@.len() == old(raw)@.len() + bs.len()
                &&& final(raw)@.take(old(raw)@.len() as int) == old(raw)@
                &&& forall|i: int|
                    0 <= i < bs.len() ==> (#[trigger] bs[i]).first() == final(raw)@[old(
                        raw,
                    )@.len() + i].start && bs[i].last() == final(raw)@[old(raw)@.len() + i].end
            },
            Err(e) => blocks(entries(list@)) == Err::<Seq<Block>, Seq<char>>(e@),
        },
{
    let text = chars_of(list);
    let ghost n0 = raw@.len() as int;
    let ghost old_raw = raw@;
    let ghost mut words: Seq<Seq<char>> = seq![];
    let ghost mut bs: Seq<Block> = seq![];
    let mut i: usize = 0;
    assert(text@.skip(0) =~= text@);
    assert(words + entries(text@) =~= entries(text@));
    assert(raw@.take(n0) =~= old_raw);
    while i < text.len()
        invariant
            i <= text@.len(),
            text@ == list@,
            entries(list@) == words + entries(text@.skip(i as int)),
            blocks(words) == Ok::<Seq<Block>, Seq<char>>(bs),
            all_valid(bs),
            raw@.len() == n0 + bs.len(),
            n0 == old_raw.len(),
            raw@.take(n0) == old_raw,
            forall|k: int|
                0 <= k < bs.len() ==> (#[trigger] bs[k]).first() == raw@[n0 + k].start
                    && bs[k].last() == raw@[n0 + k].end,
        decreases text@.len() - i,
    {
        let ghost rest = text@.skip(i as int);
        let c = text[i];
        if c == ',' || c == ' ' || c == '\t' || c == '\r' || c == '\n' {
            assert(rest.drop_first() =~= text@.skip(i + 1));
            i += 1;
            continue;
        }
        let mut end = i + 1;
        while end < text.len() && !(text[end] == ',' || text[end] == ' ' || text[end] == '\t'
            || text[end] == '\r' || text[end] == '\n')
            invariant
                i < end <= text@.len(),
                forall|k: int| i <= k < end ==> !is_separator(#[trigger] text@[k]),
            decreases text@.len() - end,
        {
            end += 1;
        }
        let word = slice_subrange(&text, i, end);
        proof {
            assert forall|k: int| 0 <= k < end - i implies !is_separator(#[trigger] rest[k]) by {
                assert(rest[k] == text@[i + k]);
            }
            lemma_word_len_is(rest, end - i);
            assert(word@ =~= rest.take(end - i));
            assert(rest.skip(end - i) =~= text@.skip(end as int));
            assert(entries(rest) == seq![word@] + entries(text@.skip(end as int)));
            assert(words + entries(rest) =~= words.push(word@) + entries(text@.skip(end as int)));
            assert(words.push(word@).drop_last() =~= words);
            lemma_blocks_append(words.push(word@), entries(text@.skip(end as int)));
        }
        match parse_cidr(word) {
            Ok(range) => {
                let ghost before = raw@;
                raw.push(range);
                proof {
                    let b = cidr(word@)->Ok_0;
                    words = words.push(word@);
                    let grown = bs.push(b);
                    assert forall|k: int| 0 <= k < grown.len() implies (
                    #[trigger] grown[k]).valid() && grown[k].first() == raw@[n0 + k].start
                        && grown[k].last() == raw@[n0 + k].end by {
                        if k < bs.len() {
                            assert(grown[k] == bs[k]);
                        }
                    }
                    bs = grown;
                    assert(raw@.take(n0) =~= before.take(n0));
                }
            },
            Err(e) => {
                return Err(e);
            },
        }
        i = end;
    }
    proof {
        assert(text@.skip(i as int) =~= seq![]);
        assert(words + entries(text@.skip(i as int)) =~= words);
    }
    Ok(())
}

/// The ranges in order, less those that lie inside another.
fn collapse(raw: Vec<Range>, Ghost(bs): Ghost<Seq<Block>>) -> (r: CidrSet)
    requires
        all_valid(bs),
        raw@.len() == bs.len(),
        forall|i: int|
            0 <= i < bs.len() ==> (#[trigger] bs[i]).first() == raw@[i].start && bs[i].last()
                == raw@[i].end,
    ensures
        collapsed(bs, r@),
        forall|x: u128| within(r@, x) <==> #[trigger] admitted(bs, x),
{
    let ghost given = raw@;
    let all = sorted(raw);
    proof {
        lemma_same_values(given, all@);
        assert forall|k: int| 0 <= k < all@.len() implies spans_one(bs, #[trigger] all@[k]) by {
            assert(all@.contains(all@[k]));
            let i = choose|i: int| 0 <= i < given.len() && given[i] == all@[k];
            assert(bs[i].first() == all@[k].start);
        }
    }
    // Overlaps collapse; adjacent ranges deliberately do not.
    let mut ranges: Vec<Range> = Vec::with_capacity(all.len());
    let mut i: usize = 0;
    while i < all.len()
        invariant
            i <= all@.len(),
            in_order(all@),
            all_valid(bs),
            forall|k: int| 0 <= k < all@.len() ==> spans_one(bs, #[trigger] all@[k]),
            disjoint(ranges@),
            forall|k: int| 0 <= k < ranges@.len() ==> spans_one(bs, #[trigger] ranges@[k]),
            i > 0 ==> ranges@.len() > 0,
            ranges@.len() > 0 ==> i > 0 && ranges@.last().start <= all@[i - 1].start,
            forall|m: int|
                0 <= m < i ==> exists|k: int|
                    0 <= k < ranges@.len() && (#[trigger] ranges@[k]).start <= (
                    #[trigger] all@[m]).start && all@[m].end <= ranges@[k].end,
        decreases all@.len() - i,
    {
        let r = all[i];
        let n = ranges.len();
        let ghost before = ranges@;
        proof {
            assert(spans_one(bs, r));
            let b = choose|j: int|
                0 <= j < bs.len() && (#[trigger] bs[j]).first() == r.start && bs[j].last()
                    == r.end;
            lemma_block_is_range(bs[b].base, bs[b].bits, bs[b].base);
            if i > 0 {
                assert(all@[i - 1].before(&all@[i as int]));
            }
        }
        if n > 0 && r.start <= ranges[n - 1].end {
            proof {
                lemma_ranges_nest(bs, before[n - 1], r);
            }
            if r.end > ranges[n - 1].end {
                ranges.set(n - 1, r);
            }
        } else {
            ranges.push(r);
        }
        proof {
            assert forall|m: int| 0 <= m < i + 1 implies exists|k: int|
                0 <= k < ranges@.len() && (#[trigger] ranges@[k]).start <= (
                #[trigger] all@[m]).start && all@[m].end <= ranges@[k].end by {
                if m < i {
                    let k = choose|k: int|
                        0 <= k < before.len() && (#[trigger] before[k]).start <= all@[m].start
                            && all@[m].end <= before[k].end;
                    assert(ranges@[k].start <= all@[m].start && all@[m].end <= ranges@[k].end);
                } else {
                    let last = ranges@.len() - 1;
                    assert(ranges@[last].start <= all@[m].start && all@[m].end
                        <= ranges@[last].end);
                }
            }
        }
        i += 1;
    }
    proof {
        assert forall|j: int| 0 <= j < bs.len() implies holds(ranges@, #[trigger] bs[j]) by {
            assert(given.contains(given[j]));
            assert(all@.contains(given[j]));
            let m = choose|m: int| 0 <= m < all@.len() && all@[m] == given[j];
            let k = choose|k: int|
                0 <= k < ranges@.len() && (#[trigger] ranges@[k]).start <= all@[m].start
                    && all@[m].end <= ranges@[k].end;
            assert(ranges@[k].start <= bs[j].first());
        }
        assert forall|x: u128| within(ranges@, x) <==> #[trigger] admitted(bs, x) by {
            law_collapse_keeps_addresses(bs, ranges@, x);
        }
    }
    let n = ranges.len();
    let span = if n > 0 {
        (ranges[0].start, ranges[n - 1].end)
    } else {
        (u128::MAX, 0)
    };
    CidrSet { ranges, span }
}

/// Comma/whitespace separated CIDRs.
pub fn build(list: &str) -> (r: Result<CidrSet, &'static str>)
    ensures
        built(entries(list@), r),
{
    let mut raw: Vec<Range> = Vec::new();
    let got = gather(list, &mut raw);
    match got {
        Ok(_) => {
            let ghost bs = blocks(entries(list@))->Ok_0;
            Ok(collapse(raw, Ghost(bs)))
        },
        Err(e) => Err(e),
    }
}

/// The same, taking one string per `allow` entry -- no join-then-resplit.
pub fn build_from(lists: &[String]) -> (r: Result<CidrSet, &'static str>)
    ensures
        built(entries_of(texts(lists@)), r),
{
    let ghost all = texts(lists@);
    let mut raw: Vec<Range> = Vec::new();
    let ghost mut bs: Seq<Block> = seq![];
    let mut i: usize = 0;
    while i < lists.len()
        invariant
            i <= lists@.len(),
            all == texts(lists@),
            blocks(entries_of(all.take(i as int))) == Ok::<Seq<Block>, Seq<char>>(bs),
            all_valid(bs),
            raw@.len() == bs.len(),
            forall|k: int|
                0 <= k < bs.len() ==> (#[trigger] bs[k]).first() == raw@[k].start
                    && bs[k].last() == raw@[k].end,
        decreases lists@.len() - i,
    {
        let ghost before = raw@;
        let ghost done = entries_of(all.take(i as int));
        let ghost here = entries(lists@[i as int]@);
        let got = gather(&lists[i], &mut raw);
        proof {
            assert(all.take(i + 1).drop_last() =~= all.take(i as int));
            assert(all.take(i + 1).last() == lists@[i as int]@);
            assert(entries_of(all.take(i + 1)) == done + here);
            lemma_blocks_append(done, here);
            if got is Err {
                lemma_entries_of_prefix(all, i + 1);
            }
        }
        match got {
            Ok(_) => {
                proof {
                    let more = blocks(here)->Ok_0;
                    let grown = bs + more;
                    assert forall|k: int| 0 <= k < grown.len() implies (
                    #[trigger] grown[k]).valid() && grown[k].first() == raw@[k].start
                        && grown[k].last() == raw@[k].end by {
                        if k < bs.len() {
                            assert(grown[k] == bs[k]);
                            assert(raw@[k] == raw@.take(before.len() as int)[k]);
                        } else {
                            assert(grown[k] == more[k - bs.len()]);
                        }
                    }
                    bs = grown;
                }
            },
            Err(e) => {
                return Err(e);
            },
        }
        i += 1;
    }
    assert(all.take(i as int) =~= all);
    Ok(collapse(raw, Ghost(bs)))
}

/// A bad entry in the first lists is what the whole reports.
proof fn lemma_entries_of_prefix(lists: Seq<Seq<char>>, n: int)
    requires
        0 <= n <= lists.len(),
        blocks(entries_of(lists.take(n))) is Err,
    ensures
        blocks(entries_of(lists)) == blocks(entries_of(lists.take(n))),
    decreases lists.len(),
{
    if n == lists.len() {
        assert(lists.take(n) =~= lists);
    } else {
        assert(lists.drop_last().take(n) =~= lists.take(n));
        lemma_entries_of_prefix(lists.drop_last(), n);
        lemma_blocks_append(entries_of(lists.drop_last()), entries(lists.last()));
    }
}

/// One entry and nothing else.
pub open spec fn solid(s: Seq<char>) -> bool {
    s.len() > 0 && forall|i: int| 0 <= i < s.len() ==> !is_separator(#[trigger] s[i])
}

/// Lists of one entry each are their entries.
pub proof fn lemma_solid_entries(lists: Seq<Seq<char>>)
    requires
        forall|i: int| 0 <= i < lists.len() ==> solid(#[trigger] lists[i]),
    ensures
        entries_of(lists) == lists,
    decreases lists.len(),
{
    if lists.len() > 0 {
        let s = lists.last();
        lemma_solid_entries(lists.drop_last());
        assert(solid(lists[lists.len() - 1]));
        lemma_word_len_is(s, s.len() as int);
        assert(!is_separator(s[0]));
        assert(s.take(s.len() as int) =~= s);
        assert(s.skip(s.len() as int).len() == 0);
        assert(entries(s.skip(s.len() as int)) =~= seq![]);
        assert(entries(s) =~= seq![s]);
        assert(entries_of(lists) =~= lists);
    } else {
        assert(entries_of(lists) =~= lists);
    }
}

/// A list without entries builds, and the set it gives holds no address.
pub proof fn law_empty_list_admits_nothing(list: Seq<char>, rs: Seq<Range>, x: u128)
    requires
        entries(list) == Seq::<Seq<char>>::empty(),
    ensures
        blocks(entries(list)) == Ok::<Seq<Block>, Seq<char>>(seq![]),
        collapsed(seq![], rs) ==> rs.len() == 0 && !within(rs, x),
{
    if collapsed(seq![], rs) && rs.len() > 0 {
        assert(spans_one(seq![], rs[0]));
    }
}

/// One more entry never takes an address away.
pub proof fn law_more_entries_admit_more(a: Seq<Block>, b: Seq<Block>, x: u128)
    requires
        admitted(a, x) || admitted(b, x),
    ensures
        admitted(a + b, x),
{
    if admitted(a, x) {
        let i = choose|i: int| 0 <= i < a.len() && (#[trigger] a[i]).contains(x);
        assert((a + b)[i].contains(x));
    } else {
        let i = choose|i: int| 0 <= i < b.len() && (#[trigger] b[i]).contains(x);
        assert((a + b)[a.len() + i].contains(x));
    }
}

/// A list is cut at each comma, blank, tab and line end, and what stands on the two sides
/// is read on its own.
pub proof fn law_lists_are_cut_at_separators(a: Seq<char>, sep: char, b: Seq<char>)
    requires
        sep == ',' || sep == ' ' || sep == '\t' || sep == '\r' || sep == '\n',
    ensures
        entries(a + seq![sep] + b) == entries(a) + entries(b),
    decreases a.len(),
{
    let s = a + seq![sep] + b;
    if a.len() == 0 {
        assert(s[0] == sep);
        assert(s.drop_first() =~= b);
        assert(entries(a) + entries(b) =~= entries(b));
    } else if is_separator(a[0]) {
        assert(s[0] == a[0]);
        assert(s.drop_first() =~= a.drop_first() + seq![sep] + b);
        law_lists_are_cut_at_separators(a.drop_first(), sep, b);
    } else {
        let k = word_len(a);
        lemma_word_len(a);
        lemma_word_is_solid(a);
        assert(s[0] == a[0]);
        assert forall|i: int| 0 <= i < k implies !is_separator(#[trigger] s[i]) by {
            assert(s[i] == a[i]);
        }
        if k < a.len() {
            assert(s[k] == a[k]);
        } else {
            assert(s[k] == sep);
        }
        lemma_word_len_is(s, k);
        assert(s.take(k) =~= a.take(k));
        assert(s.skip(k) =~= a.skip(k) + seq![sep] + b);
        law_lists_are_cut_at_separators(a.skip(k), sep, b);
        assert(seq![a.take(k)] + (entries(a.skip(k)) + entries(b)) =~= entries(a) + entries(b));
    }
}

proof fn lemma_word_is_solid(s: Seq<char>)
    ensures
        forall|i: int| 0 <= i < word_len(s) ==> !is_separator(#[trigger] s[i]),
    decreases s.len(),
{
    if s.len() > 0 && !is_separator(s[0]) {
        let t = s.drop_first();
        lemma_word_is_solid(t);
        lemma_word_len(t);
        assert forall|i: int| 0 <= i < word_len(s) implies !is_separator(#[trigger] s[i]) by {
            if i > 0 {
                assert(s[i] == t[i - 1]);
            }
        }
    }
}

/// A text without any of these is one entry, and an empty one is none; several lists are
/// read one after the other.
pub proof fn law_entries_stand_whole(word: Seq<char>, a: Seq<Seq<char>>, b: Seq<Seq<char>>)
    requires
        forall|i: int|
            0 <= i < word.len() ==> #[trigger] word[i] != ',' && word[i] != ' ' && word[i] != '\t'
                && word[i] != '\r' && word[i] != '\n',
    ensures
        entries(word) == if word.len() > 0 {
            seq![word]
        } else {
            seq![]
        },
        entries_of(seq![word]) == entries(word),
        entries_of(a + b) == entries_of(a) + entries_of(b),
    decreases b.len(),
{
    let one = seq![word];
    assert(one.drop_last() =~= seq![]);
    assert(entries_of(one.drop_last()) =~= seq![]);
    assert(entries_of(one) =~= entries(word));
    if word.len() > 0 {
        assert forall|i: int| 0 <= i < one.len() implies solid(#[trigger] one[i]) by {
            assert forall|j: int| 0 <= j < word.len() implies !is_separator(#[trigger] word[j]) by {}
        }
        lemma_solid_entries(one);
    }
    if b.len() == 0 {
        assert(a + b =~= a);
        assert(entries_of(a) + entries_of(b) =~= entries_of(a));
    } else {
        law_entries_stand_whole(word, a, b.drop_last());
        assert((a + b).drop_last() =~= a + b.drop_last());
        assert((a + b).last() == b.last());
        assert(entries_of(a + b) =~= entries_of(a) + entries_of(b));
    }
}

/// Blocks are read entry by entry, in order; one that cannot be read refuses the list,
/// and the first such says why.
pub proof fn law_blocks_are_read_one_by_one(words: Seq<Seq<char>>)
    ensures
        match blocks(words) {
            Ok(bs) => bs.len() == words.len() && forall|i: int|
                0 <= i < words.len() ==> cidr(#[trigger] words[i]) == Ok::<Block, Seq<char>>(bs[i]),
            Err(e) => exists|i: int|
                {
                    &&& 0 <= i < words.len()
                    &&& cidr(#[trigger] words[i]) == Err::<Block, Seq<char>>(e)
                    &&& forall|j: int| 0 <= j < i ==> cidr(#[trigger] words[j]) is Ok
                },
        },
    decreases words.len(),
{
    if words.len() > 0 {
        let head = words.drop_last();
        let n = words.len() - 1;
        law_blocks_are_read_one_by_one(head);
        match blocks(head) {
            Err(e) => {
                let i = choose|i: int|
                    {
                        &&& 0 <= i < head.len()
                        &&& cidr(#[trigger] head[i]) == Err::<Block, Seq<char>>(e)
                        &&& forall|j: int| 0 <= j < i ==> cidr(#[trigger] head[j]) is Ok
                    };
                assert(words[i] == head[i]);
                assert forall|j: int| 0 <= j < i implies cidr(#[trigger] words[j]) is Ok by {
                    assert(cidr(head[j]) is Ok);
                }
            },
            Ok(hb) => {
                assert forall|i: int| 0 <= i < n implies cidr(#[trigger] words[i]) == Ok::<
                    Block,
                    Seq<char>,
                >(hb[i]) by {
                    assert(cidr(head[i]) == Ok::<Block, Seq<char>>(hb[i]));
                }
                assert(cidr(words[n]) == cidr(words.last()));
            },
        }
    }
}

/// A set holds an address exactly where one of the blocks that it was built from covers
/// it.
pub proof fn law_set_holds_exactly_its_blocks(
    words: Seq<Seq<char>>,
    r: Result<CidrSet, &'static str>,
    x: u128,
)
    requires
        built(words, r),
    ensures
        match r {
            Ok(set) => {
                (exists|k: int|
                    0 <= k < set@.len() && (#[trigger] set@[k]).start <= x <= set@[k].end) <==> (
                exists|i: int|
                    0 <= i < words.len() && (cidr(#[trigger] words[i]) matches Ok(b) && covers(
                        b.base,
                        b.bits,
                        x as int,
                    )))
            },
            Err(_) => exists|i: int| 0 <= i < words.len() && cidr(#[trigger] words[i]) is Err,
        },
{
    law_blocks_are_read_one_by_one(words);
    if let Ok(set) = r {
        let bs = blocks(words)->Ok_0;
        assert(within(set@, x) <==> admitted(bs, x));
        if admitted(bs, x) {
            let i = choose|i: int| 0 <= i < bs.len() && (#[trigger] bs[i]).contains(x);
            assert(cidr(words[i]) == Ok::<Block, Seq<char>>(bs[i]));
        }
        if exists|i: int|
            0 <= i < words.len() && (cidr(#[trigger] words[i]) matches Ok(b) && covers(
                b.base,
                b.bits,
                x as int,
            )) {
            let i = choose|i: int|
                0 <= i < words.len() && (cidr(#[trigger] words[i]) matches Ok(b) && covers(
                    b.base,
                    b.bits,
                    x as int,
                ));
            assert(bs[i].contains(x));
        }
    }
}

/// An entry is an address, a slash and a width up to 128: any other is refused, and told
/// what is wrong with it.
pub proof fn law_bad_entries_are_refused(head: Seq<char>, tail: Seq<char>)
    requires
        forall|i: int| 0 <= i < head.len() ==> #[trigger] head[i] != '/',
    ensures
        cidr(head) == Err::<Block, Seq<char>>("missing prefix length"@),
        v6(head) is None ==> cidr(head.push('/') + tail) == Err::<Block, Seq<char>>(
            "bad IPv6 address"@,
        ),
        v6(head) is Some && uint(tail, 0xffff_ffff) is None ==> cidr(head.push('/') + tail)
            == Err::<Block, Seq<char>>("bad prefix length"@),
        v6(head) is Some && uint(tail, 0xffff_ffff) is Some && uint(tail, 128) is None ==> cidr(
            head.push('/') + tail,
        ) == Err::<Block, Seq<char>>("prefix length above 128"@),
{
    lemma_find_is(head, '/', head.len() as int);
    let s = head.push('/') + tail;
    assert forall|i: int| 0 <= i < head.len() implies s[i] != '/' by {
        assert(s[i] == head[i]);
    }
    assert(s[head.len() as int] == '/');
    lemma_find_is(s, '/', head.len() as int);
    assert(s.take(head.len() as int) =~= head);
    assert(s.skip(head.len() as int + 1) =~= tail);
}

/// Each range of a set holds exactly the addresses of one of its blocks, so blocks side by
/// side stay apart. No address lies in two ranges.
pub proof fn law_ranges_are_whole_blocks(bs: Seq<Block>, rs: Seq<Range>, k: int)
    requires
        all_valid(bs),
        collapsed(bs, rs),
        0 <= k < rs.len(),
    ensures
        exists|i: int| 0 <= i < bs.len() && same_addresses(#[trigger] bs[i], rs[k]),
        rs[k].start <= rs[k].end,
        k + 1 < rs.len() ==> rs[k].end < rs[k + 1].start,
{
    assert(spans_one(bs, rs[k]));
    let i = choose|i: int|
        0 <= i < bs.len() && (#[trigger] bs[i]).first() == rs[k].start && bs[i].last()
            == rs[k].end;
    lemma_same_addresses(bs[i], rs[k]);
}

/// Each block lies in one range, its own or that of a block that it lies inside.
pub proof fn law_blocks_lie_in_one_range(bs: Seq<Block>, rs: Seq<Range>, i: int)
    requires
        all_valid(bs),
        collapsed(bs, rs),
        0 <= i < bs.len(),
    ensures
        exists|k: int| 0 <= k < rs.len() && lies_inside(bs[i], #[trigger] rs[k]),
{
    assert(holds(rs, bs[i]));
    let k = choose|k: int|
        0 <= k < rs.len() && (#[trigger] rs[k]).start <= bs[i].first() && bs[i].last() <= rs[k].end;
    lemma_lies_inside(bs[i], rs[k]);
}

proof fn lemma_same_addresses(b: Block, r: Range)
    requires
        b.valid(),
        b.first() == r.start,
        b.last() == r.end,
    ensures
        same_addresses(b, r),
{
    assert forall|x: u128| #[trigger] b.contains(x) <==> r.start <= x <= r.end by {
        lemma_block(b, x);
    }
}

proof fn lemma_lies_inside(b: Block, r: Range)
    requires
        b.valid(),
        r.start <= b.first(),
        b.last() <= r.end,
    ensures
        lies_inside(b, r),
{
    assert forall|x: u128| #[trigger] b.contains(x) implies r.start <= x <= r.end by {
        lemma_block(b, x);
    }
}

/// The block and the range hold the same addresses.
pub open spec fn same_addresses(b: Block, r: Range) -> bool {
    forall|x: u128| #[trigger] b.contains(x) <==> r.start <= x <= r.end
}

/// The range holds the addresses of the block.
pub open spec fn lies_inside(b: Block, r: Range) -> bool {
    forall|x: u128| #[trigger] b.contains(x) ==> r.start <= x <= r.end
}

} // verus!
