//! IPv4 and IPv6 addresses as text.
//!
//! An address is its octets in network order. IPv6 is written as RFC 5952 asks:
//! lower case, no leading zeros, the leftmost longest run of two or more zero
//! groups as `::`, and `::ffff:a.b.c.d` for a mapped IPv4 address.

use crate::text::{
    all_digits, find, find_char, is_digit, law_numerals_are_unique, lemma_find, lemma_find_is, lemma_numeral,
    lemma_numeral_len, number, numeral, push_number, read_digits,
};
use vstd::prelude::*;
use vstd::slice::slice_subrange;

verus! {

// --- the grammar --------------------------------------------------------------

/// One group of an IPv6 address: one to four hexadecimal digits.
pub open spec fn hex_piece(s: Seq<char>) -> Option<u16> {
    if 1 <= s.len() <= 4 && all_digits(s, true) {
        Some(number(s, true) as u16)
    } else {
        None
    }
}

/// One octet of a dotted quad: at most 255, without leading zeros.
pub open spec fn dec_piece(s: Seq<char>) -> Option<u8> {
    if 1 <= s.len() <= 3 && all_digits(s, false) && number(s, false) <= 255 && (s.len() > 1
        ==> s[0] != '0') {
        Some(number(s, false) as u8)
    } else {
        None
    }
}

/// `n` octets with a dot between each two.
pub open spec fn octets_text(s: Seq<char>, n: nat) -> Option<Seq<u8>>
    decreases n,
{
    if n <= 1 {
        match dec_piece(s) {
            Some(b) => Some(seq![b]),
            None => None,
        }
    } else {
        let k = find(s, '.');
        if k >= s.len() {
            None
        } else {
            match (dec_piece(s.take(k)), octets_text(s.skip(k + 1), (n - 1) as nat)) {
                (Some(b), Some(rest)) => Some(seq![b] + rest),
                _ => None,
            }
        }
    }
}

/// The four octets of an IPv4 address.
pub open spec fn v4(s: Seq<char>) -> Option<Seq<u8>> {
    octets_text(s, 4)
}

pub open spec fn pair(hi: u8, lo: u8) -> u16 {
    (hi * 256 + lo) as u16
}

/// Groups with a colon between each two. Where `tail` is set, the last two may
/// be written as a dotted quad.
pub open spec fn groups(s: Seq<char>, tail: bool) -> Option<Seq<u16>>
    decreases s.len(),
{
    let k = find(s, ':');
    if k < 0 || k >= s.len() {
        match hex_piece(s) {
            Some(g) => Some(seq![g]),
            None => match v4(s) {
                Some(q) if tail => Some(seq![pair(q[0], q[1]), pair(q[2], q[3])]),
                _ => None,
            },
        }
    } else {
        match (hex_piece(s.take(k)), groups(s.skip(k + 1), tail)) {
            (Some(g), Some(rest)) => Some(seq![g] + rest),
            _ => None,
        }
    }
}

/// What stands on one side of `::`, which may be nothing.
pub open spec fn side(s: Seq<char>, tail: bool) -> Option<Seq<u16>> {
    if s.len() == 0 {
        Some(seq![])
    } else {
        groups(s, tail)
    }
}

/// Position of the first `::`, or the whole length where there is none.
pub open spec fn find_gap(s: Seq<char>) -> int
    decreases s.len(),
{
    if s.len() < 2 {
        s.len() as int
    } else if s[0] == ':' && s[1] == ':' {
        0
    } else {
        1 + find_gap(s.drop_first())
    }
}

pub open spec fn zeros(n: int) -> Seq<u16> {
    Seq::new(n as nat, |i: int| 0u16)
}

/// The eight groups of an IPv6 address. `::` stands for one or more zero groups.
pub open spec fn v6_groups(s: Seq<char>) -> Option<Seq<u16>> {
    let k = find_gap(s);
    if k < s.len() {
        match (side(s.take(k), false), side(s.skip(k + 2), true)) {
            (Some(h), Some(t)) => if h.len() + t.len() <= 7 {
                Some(h + zeros(8 - h.len() - t.len()) + t)
            } else {
                None
            },
            _ => None,
        }
    } else {
        match groups(s, true) {
            Some(g) if g.len() == 8 => Some(g),
            _ => None,
        }
    }
}

/// Eight groups as sixteen octets.
pub open spec fn octets_of(g: Seq<u16>) -> Seq<u8> {
    Seq::new(
        16,
        |i: int|
            if i % 2 == 0 {
                (g[i / 2] / 256) as u8
            } else {
                (g[i / 2] % 256) as u8
            },
    )
}

/// Sixteen octets as eight groups.
pub open spec fn groups_of(o: Seq<u8>) -> Seq<u16> {
    Seq::new(8, |i: int| pair(o[2 * i], o[2 * i + 1]))
}

/// The sixteen octets of an IPv6 address.
pub open spec fn v6(s: Seq<char>) -> Option<Seq<u8>> {
    match v6_groups(s) {
        Some(g) => Some(octets_of(g)),
        None => None,
    }
}

// --- the canonical text -------------------------------------------------------

/// Octets as decimals with dots between.
pub open spec fn dotted(o: Seq<u8>) -> Seq<char>
    decreases o.len(),
{
    if o.len() <= 1 {
        numeral(o[0] as int, false)
    } else {
        numeral(o[0] as int, false).push('.') + dotted(o.drop_first())
    }
}

/// Groups in hexadecimal with colons between.
pub open spec fn colons(g: Seq<u16>) -> Seq<char>
    decreases g.len(),
{
    if g.len() == 0 {
        seq![]
    } else if g.len() == 1 {
        numeral(g[0] as int, true)
    } else {
        numeral(g[0] as int, true).push(':') + colons(g.drop_first())
    }
}

/// How many zero groups stand in a row from `i` on.
pub open spec fn run_len(g: Seq<u16>, i: int) -> int
    decreases g.len() - i,
{
    if 0 <= i < g.len() && g[i] == 0 {
        1 + run_len(g, i + 1)
    } else {
        0
    }
}

/// Start of the leftmost longest run of zero groups that begins at `i` or later.
pub open spec fn best_run(g: Seq<u16>, i: int) -> int
    decreases g.len() - i,
{
    if i >= g.len() {
        i
    } else {
        let later = best_run(g, i + 1);
        if run_len(g, i) >= run_len(g, later) {
            i
        } else {
            later
        }
    }
}

/// An IPv4 address in ::ffff:0:0/96.
pub open spec fn is_mapped(o: Seq<u8>) -> bool {
    &&& forall|i: int| 0 <= i < 10 ==> #[trigger] o[i] == 0
    &&& o[10] == 0xff
    &&& o[11] == 0xff
}

pub open spec fn v4_text(o: Seq<u8>) -> Seq<char> {
    dotted(o)
}

pub open spec fn v6_text(o: Seq<u8>) -> Seq<char> {
    let g = groups_of(o);
    let s = best_run(g, 0);
    let n = run_len(g, s);
    if is_mapped(o) {
        seq![':', ':', 'f', 'f', 'f', 'f', ':'] + dotted(o.skip(12))
    } else if n > 1 {
        colons(g.take(s)) + seq![':', ':'] + colons(g.skip(s + n))
    } else {
        colons(g)
    }
}

// --- reading ------------------------------------------------------------------

fn read_hex_piece(s: &[char]) -> (r: Option<u16>)
    ensures
        r == hex_piece(s@),
{
    if s.len() < 1 || s.len() > 4 {
        return None;
    }
    proof {
        lemma_small_number(s@, true);
    }
    match read_digits(s, true, 0xffff) {
        Some(n) => Some(n as u16),
        None => None,
    }
}

/// Four hexadecimal digits stay below 65536.
proof fn lemma_small_number(s: Seq<char>, hex: bool)
    requires
        s.len() <= 4,
    ensures
        all_digits(s, hex) ==> 0 <= number(s, hex) < 65536,
{
    if all_digits(s, hex) {
        reveal_with_fuel(number, 5);
        if s.len() > 0 {
            assert(is_digit(s[s.len() - 1], hex));
        }
        if s.len() > 1 {
            assert(s.drop_last().last() == s[s.len() - 2]);
            assert(is_digit(s[s.len() - 2], hex));
        }
        if s.len() > 2 {
            assert(s.drop_last().drop_last().last() == s[s.len() - 3]);
            assert(is_digit(s[s.len() - 3], hex));
        }
        if s.len() > 3 {
            assert(s.drop_last().drop_last().drop_last().last() == s[s.len() - 4]);
            assert(is_digit(s[s.len() - 4], hex));
        }
    }
}

fn read_dec_piece(s: &[char]) -> (r: Option<u8>)
    ensures
        r == dec_piece(s@),
{
    if s.len() < 1 || s.len() > 3 || (s.len() > 1 && s[0] == '0') {
        return None;
    }
    proof {
        lemma_small_number(s@, false);
    }
    match read_digits(s, false, 255) {
        Some(n) => Some(n as u8),
        None => None,
    }
}

/// Read an IPv4 address.
pub fn read_v4(text: &[char]) -> (r: Option<[u8; 4]>)
    ensures
        match r {
            Some(o) => v4(text@) == Some(o@),
            None => v4(text@) is None,
        },
{
    let mut out: [u8; 4] = [0; 4];
    let mut at: usize = 0;
    let mut i: usize = 0;
    assert(text@.skip(0) =~= text@);
    assert(forall|r: Seq<u8>| #[trigger] (out@.take(0) + r) =~= r);
    while i < 3
        invariant
            i <= 3,
            at <= text@.len(),
            v4(text@) == match octets_text(text@.skip(at as int), (4 - i) as nat) {
                Some(rest) => Some(out@.take(i as int) + rest),
                None => None,
            },
        decreases 3 - i,
    {
        let rest = slice_subrange(text, at, text.len());
        assert(rest@ =~= text@.skip(at as int));
        let k = find_char(rest, '.');
        if k >= rest.len() {
            return None;
        }
        let piece = slice_subrange(rest, 0, k);
        assert(piece@ =~= rest@.take(k as int));
        let b = match read_dec_piece(piece) {
            Some(b) => b,
            None => {
                return None;
            },
        };
        let ghost before = out@.take(i as int);
        out[i] = b;
        assert(out@.take(i + 1) =~= before + seq![b]);
        assert(rest@.skip(k + 1) =~= text@.skip(at + k + 1));
        assert(forall|r: Seq<u8>| before + (seq![b] + r) =~= #[trigger] (out@.take(i + 1) + r));
        at = at + k + 1;
        i += 1;
    }
    let last = slice_subrange(text, at, text.len());
    assert(last@ =~= text@.skip(at as int));
    match read_dec_piece(last) {
        Some(b) => {
            let ghost before = out@.take(3);
            out[3] = b;
            assert(out@ =~= before + seq![b]);
            Some(out)
        },
        None => None,
    }
}

/// An IPv4 address has four octets.
pub proof fn lemma_v4_len(s: Seq<char>)
    ensures
        v4(s) matches Some(o) ==> o.len() == 4,
{
    lemma_octets_len(s, 4);
}

proof fn lemma_octets_len(s: Seq<char>, n: nat)
    ensures
        n >= 1 ==> (octets_text(s, n) matches Some(o) ==> o.len() == n),
    decreases n,
{
    if n > 1 {
        lemma_octets_len(s.skip(find(s, '.') + 1), (n - 1) as nat);
    }
}

fn read_side(s: &[char], tail: bool) -> (r: Option<Vec<u16>>)
    ensures
        match r {
            Some(g) => side(s@, tail) == Some(g@),
            None => side(s@, tail) is None,
        },
{
    let mut out: Vec<u16> = Vec::new();
    if s.len() == 0 {
        assert(out@ =~= seq![]);
        return Some(out);
    }
    let mut at: usize = 0;
    assert(s@.skip(0) =~= s@);
    assert(forall|r: Seq<u16>| out@ + r =~= r);
    loop
        invariant
            at <= s@.len(),
            groups(s@, tail) == match groups(s@.skip(at as int), tail) {
                Some(rest) => Some(out@ + rest),
                None => None,
            },
            s@.len() > 0,
        decreases s@.len() - at,
    {
        let rest = slice_subrange(s, at, s.len());
        assert(rest@ =~= s@.skip(at as int));
        let k = find_char(rest, ':');
        if k >= rest.len() {
            match read_hex_piece(rest) {
                Some(g) => {
                    let ghost before = out@;
                    out.push(g);
                    assert(out@ =~= before + seq![g]);
                    return Some(out);
                },
                None => {},
            }
            if !tail {
                return None;
            }
            match read_v4(rest) {
                Some(q) => {
                    let ghost before = out@;
                    out.push(q[0] as u16 * 256 + q[1] as u16);
                    out.push(q[2] as u16 * 256 + q[3] as u16);
                    assert(out@ =~= before + seq![pair(q@[0], q@[1]), pair(q@[2], q@[3])]);
                    return Some(out);
                },
                None => {
                    return None;
                },
            }
        }
        let piece = slice_subrange(rest, 0, k);
        assert(piece@ =~= rest@.take(k as int));
        match read_hex_piece(piece) {
            Some(g) => {
                let ghost before = out@;
                out.push(g);
                assert(rest@.skip(k + 1) =~= s@.skip(at + k + 1));
                assert(forall|r: Seq<u16>| before + (seq![g] + r) =~= #[trigger] (out@ + r));
                at = at + k + 1;
            },
            None => {
                return None;
            },
        }
    }
}

pub proof fn lemma_gap(s: Seq<char>)
    ensures
        0 <= find_gap(s) <= s.len(),
        forall|i: int|
            #![trigger s[i]]
            0 <= i < find_gap(s) && i + 1 < s.len() ==> !(s[i] == ':' && s[i + 1] == ':'),
        find_gap(s) < s.len() ==> {
            &&& find_gap(s) + 1 < s.len()
            &&& s[find_gap(s)] == ':'
            &&& s[find_gap(s) + 1] == ':'
        },
    decreases s.len(),
{
    if s.len() >= 2 && !(s[0] == ':' && s[1] == ':') {
        let t = s.drop_first();
        lemma_gap(t);
        assert forall|i: int|
            #![trigger s[i]]
            0 <= i < find_gap(s) && i + 1 < s.len() implies !(s[i] == ':' && s[i + 1] == ':') by {
            if i > 0 {
                assert(s[i] == t[i - 1] && s[i + 1] == t[i]);
            }
        }
    }
}

proof fn lemma_gap_is(s: Seq<char>, k: int)
    requires
        0 <= k <= s.len(),
        forall|i: int|
            #![trigger s[i]]
            0 <= i < k && i + 1 < s.len() ==> !(s[i] == ':' && s[i + 1] == ':'),
        k < s.len() ==> k + 1 < s.len() && s[k] == ':' && s[k + 1] == ':',
    ensures
        find_gap(s) == k,
{
    lemma_gap(s);
    let f = find_gap(s);
    if f < k {
        assert(s[f] == ':');
    } else if k < f {
        assert(s[k] == ':');
    }
}

fn gap_at(s: &[char]) -> (r: usize)
    ensures
        r == find_gap(s@),
        r <= s@.len(),
        r < s@.len() ==> r + 1 < s@.len(),
{
    let mut i: usize = 0;
    while s.len() > 1 && i < s.len() - 1
        invariant
            i <= s@.len(),
            forall|j: int|
                #![trigger s@[j]]
                0 <= j < i && j + 1 < s@.len() ==> !(s@[j] == ':' && s@[j + 1] == ':'),
        decreases s@.len() - i,
    {
        if s[i] == ':' && s[i + 1] == ':' {
            proof {
                lemma_gap_is(s@, i as int);
            }
            return i;
        }
        i += 1;
    }
    proof {
        lemma_gap_is(s@, s@.len() as int);
    }
    s.len()
}

fn octets_from(g: &[u16; 8]) -> (r: [u8; 16])
    ensures
        r@ == octets_of(g@),
{
    let mut out: [u8; 16] = [0; 16];
    let mut i: usize = 0;
    while i < 8
        invariant
            i <= 8,
            forall|j: int| 0 <= j < 2 * i ==> out@[j] == octets_of(g@)[j],
        decreases 8 - i,
    {
        out[2 * i] = (g[i] / 256) as u8;
        out[2 * i + 1] = (g[i] % 256) as u8;
        i += 1;
    }
    assert(out@ =~= octets_of(g@));
    out
}

/// Read an IPv6 address.
pub fn read_v6(text: &[char]) -> (r: Option<[u8; 16]>)
    ensures
        match r {
            Some(o) => v6(text@) == Some(o@),
            None => v6(text@) is None,
        },
{
    let k = gap_at(text);
    let mut g: [u16; 8] = [0; 8];
    if k < text.len() {
        let front = slice_subrange(text, 0, k);
        let back = slice_subrange(text, k + 2, text.len());
        assert(front@ =~= text@.take(k as int));
        assert(back@ =~= text@.skip(k + 2));
        let (h, t) = match (read_side(front, false), read_side(back, true)) {
            (Some(h), Some(t)) => (h, t),
            _ => {
                return None;
            },
        };
        if h.len() > 7 || t.len() > 7 - h.len() {
            return None;
        }
        let ghost full = h@ + zeros(8 - h@.len() - t@.len()) + t@;
        let mut i: usize = 0;
        while i < h.len()
            invariant
                i <= h@.len() <= 7,
                forall|j: int| 0 <= j < i ==> g@[j] == h@[j],
                forall|j: int| i <= j < 8 ==> g@[j] == 0,
            decreases h@.len() - i,
        {
            g[i] = h[i];
            i += 1;
        }
        let from: usize = 8 - t.len();
        let mut j: usize = 0;
        while j < t.len()
            invariant
                j <= t@.len() <= 7,
                from == 8 - t@.len(),
                h@.len() < from,
                forall|m: int| 0 <= m < h@.len() ==> g@[m] == h@[m],
                forall|m: int| h@.len() <= m < from ==> g@[m] == 0,
                forall|m: int| 0 <= m < j ==> g@[from + m] == t@[m],
            decreases t@.len() - j,
        {
            g[from + j] = t[j];
            j += 1;
        }
        assert forall|m: int| 0 <= m < 8 implies g@[m] == full[m] by {
            if m >= from {
                assert(g@[from + (m - from)] == t@[m - from]);
            }
        }
        assert(g@ =~= full);
    } else {
        let all = match read_side(text, true) {
            Some(all) => all,
            None => {
                return None;
            },
        };
        if all.len() != 8 {
            return None;
        }
        let mut i: usize = 0;
        while i < 8
            invariant
                i <= 8,
                all@.len() == 8,
                forall|j: int| 0 <= j < i ==> g@[j] == all@[j],
            decreases 8 - i,
        {
            g[i] = all[i];
            i += 1;
        }
        assert(g@ =~= all@);
    }
    Some(octets_from(&g))
}

// --- writing ------------------------------------------------------------------

fn push_dotted(out: &mut String, o: &[u8])
    requires
        o@.len() > 0,
    ensures
        final(out)@ == old(out)@ + dotted(o@),
    decreases o@.len(),
{
    push_number(out, o[0] as u32, false);
    if o.len() > 1 {
        out.push('.');
        let rest = slice_subrange(o, 1, o.len());
        assert(rest@ =~= o@.drop_first());
        push_dotted(out, rest);
    }
    assert(out@ =~= old(out)@ + dotted(o@));
}

fn push_colons(out: &mut String, g: &[u16])
    ensures
        final(out)@ == old(out)@ + colons(g@),
    decreases g@.len(),
{
    if g.len() > 0 {
        push_number(out, g[0] as u32, true);
        if g.len() > 1 {
            out.push(':');
            let rest = slice_subrange(g, 1, g.len());
            assert(rest@ =~= g@.drop_first());
            push_colons(out, rest);
        }
    }
    assert(out@ =~= old(out)@ + colons(g@));
}

fn groups_from(o: &[u8; 16]) -> (r: [u16; 8])
    ensures
        r@ == groups_of(o@),
{
    let mut g: [u16; 8] = [0; 8];
    let mut i: usize = 0;
    while i < 8
        invariant
            i <= 8,
            forall|j: int| 0 <= j < i ==> g@[j] == groups_of(o@)[j],
        decreases 8 - i,
    {
        g[i] = o[2 * i] as u16 * 256 + o[2 * i + 1] as u16;
        i += 1;
    }
    assert(g@ =~= groups_of(o@));
    g
}

/// Length of the run of zero groups at `i`.
fn run_at(g: &[u16; 8], i: usize) -> (r: usize)
    requires
        i <= 8,
    ensures
        r == run_len(g@, i as int),
        i + r <= 8,
    decreases 8 - i,
{
    if i < 8 && g[i] == 0 {
        1 + run_at(g, i + 1)
    } else {
        0
    }
}

/// Start of the run that `::` replaces.
fn best_run_from(g: &[u16; 8], i: usize) -> (r: usize)
    requires
        i <= 8,
    ensures
        r == best_run(g@, i as int),
        i <= r <= 8,
    decreases 8 - i,
{
    if i >= 8 {
        i
    } else {
        let later = best_run_from(g, i + 1);
        if run_at(g, i) >= run_at(g, later) {
            i
        } else {
            later
        }
    }
}

fn mapped_v4(o: &[u8; 16]) -> (r: bool)
    ensures
        r == is_mapped(o@),
{
    let mut i: usize = 0;
    while i < 10
        invariant
            i <= 10,
            forall|j: int| 0 <= j < i ==> #[trigger] o@[j] == 0,
        decreases 10 - i,
    {
        if o[i] != 0 {
            assert(o@[i as int] != 0);
            return false;
        }
        i += 1;
    }
    o[10] == 0xff && o[11] == 0xff
}

/// The text of an IPv4 address.
pub fn write_v4(o: &[u8; 4]) -> (r: String)
    ensures
        r@ == v4_text(o@),
{
    let mut out = String::new();
    let s = slice_subrange(o, 0, 4);
    assert(s@ =~= o@);
    push_dotted(&mut out, s);
    assert(out@ =~= dotted(o@));
    out
}

/// The text of an IPv6 address.
pub fn write_v6(o: &[u8; 16]) -> (r: String)
    ensures
        r@ == v6_text(o@),
{
    let mut out = String::new();
    if mapped_v4(o) {
        out.push(':');
        out.push(':');
        out.push('f');
        out.push('f');
        out.push('f');
        out.push('f');
        out.push(':');
        let low = slice_subrange(o, 12, 16);
        assert(low@ =~= o@.skip(12));
        assert(out@ =~= seq![':', ':', 'f', 'f', 'f', 'f', ':']);
        push_dotted(&mut out, low);
        return out;
    }
    let g = groups_from(o);
    let s = best_run_from(&g, 0);
    let n = run_at(&g, s);
    if n > 1 {
        let front = slice_subrange(&g, 0, s);
        let back = slice_subrange(&g, s + n, 8);
        assert(front@ =~= g@.take(s as int));
        assert(back@ =~= g@.skip(s + n));
        push_colons(&mut out, front);
        out.push(':');
        out.push(':');
        push_colons(&mut out, back);
        assert(out@ =~= colons(front@) + seq![':', ':'] + colons(back@));
    } else {
        let all = slice_subrange(&g, 0, 8);
        assert(all@ =~= g@);
        push_colons(&mut out, all);
        assert(out@ =~= colons(g@));
    }
    out
}

// --- laws ---------------------------------------------------------------------

/// Characters that an address is written with.
pub open spec fn is_address_char(c: char) -> bool {
    is_digit(c, true) || c == ':' || c == '.'
}

pub open spec fn all_address_chars(s: Seq<char>) -> bool {
    forall|i: int| 0 <= i < s.len() ==> is_address_char(#[trigger] s[i])
}

proof fn lemma_octet_numeral(b: u8)
    ensures
        dec_piece(numeral(b as int, false)) == Some(b),
{
    lemma_numeral(b as int, false);
    lemma_numeral_len(b as int, false);
}

proof fn lemma_group_numeral(g: u16)
    ensures
        hex_piece(numeral(g as int, true)) == Some(g),
{
    lemma_numeral(g as int, true);
    lemma_numeral_len(g as int, true);
}

/// A separator right after a run of digits is the first one.
proof fn lemma_find_after_digits(s: Seq<char>, d: Seq<char>, hex: bool, c: char, rest: Seq<char>)
    requires
        all_digits(d, hex),
        !is_digit(c, hex),
        s == d.push(c) + rest,
    ensures
        find(s, c) == d.len(),
        s.take(d.len() as int) == d,
        s.skip(d.len() as int + 1) == rest,
{
    assert forall|i: int| 0 <= i < d.len() implies s[i] != c by {
        assert(s[i] == d[i]);
        assert(is_digit(d[i], hex));
    }
    assert(s[d.len() as int] == c);
    lemma_find_is(s, c, d.len() as int);
    assert(s.take(d.len() as int) =~= d);
    assert(s.skip(d.len() as int + 1) =~= rest);
}

proof fn lemma_dotted(o: Seq<u8>)
    requires
        o.len() > 0,
    ensures
        octets_text(dotted(o), o.len()) == Some(o),
        dotted(o).len() > 0,
        forall|i: int|
            0 <= i < dotted(o).len() ==> is_digit(#[trigger] dotted(o)[i], false) || dotted(o)[i]
                == '.',
        o.len() > 1 ==> dotted(o).contains('.'),
    decreases o.len(),
{
    let s = dotted(o);
    let d = numeral(o[0] as int, false);
    lemma_octet_numeral(o[0]);
    lemma_numeral(o[0] as int, false);
    if o.len() == 1 {
        assert(seq![o[0]] =~= o);
    } else {
        let rest = o.drop_first();
        lemma_dotted(rest);
        lemma_find_after_digits(s, d, false, '.', dotted(rest));
        assert(seq![o[0]] + rest =~= o);
        assert forall|i: int| 0 <= i < s.len() implies is_digit(#[trigger] s[i], false) || s[i]
            == '.' by {
            if i < d.len() {
                assert(s[i] == d[i]);
            } else if i > d.len() {
                assert(s[i] == dotted(rest)[i - d.len() - 1]);
            }
        }
        assert(s[d.len() as int] == '.');
    }
}

proof fn lemma_colons(g: Seq<u16>, tail: bool)
    ensures
        side(colons(g), tail) == Some(g),
        g.len() > 0 ==> groups(colons(g), tail) == Some(g),
        g.len() > 0 ==> colons(g).len() > 0 && colons(g)[0] != ':',
        forall|i: int|
            #![trigger colons(g)[i]]
            0 <= i < colons(g).len() && colons(g)[i] == ':' ==> i + 1 < colons(g).len() && colons(
                g,
            )[i + 1] != ':',
        forall|i: int|
            0 <= i < colons(g).len() ==> is_digit(#[trigger] colons(g)[i], true) || colons(g)[i]
                == ':',
    decreases g.len(),
{
    let s = colons(g);
    if g.len() == 0 {
        assert(g =~= seq![]);
    } else {
        let d = numeral(g[0] as int, true);
        lemma_group_numeral(g[0]);
        lemma_numeral(g[0] as int, true);
        assert forall|i: int| 0 <= i < d.len() implies d[i] != ':' by {
            assert(is_digit(d[i], true));
        }
        if g.len() == 1 {
            assert(seq![g[0]] =~= g);
            lemma_find_is(s, ':', s.len() as int);
        } else {
            let rest = g.drop_first();
            let t = colons(rest);
            lemma_colons(rest, tail);
            lemma_find_after_digits(s, d, true, ':', t);
            assert(seq![g[0]] + rest =~= g);
            assert(s[0] == d[0]);
            assert forall|i: int|
                #![trigger s[i]]
                0 <= i < s.len() && s[i] == ':' implies i + 1 < s.len() && s[i + 1] != ':' by {
                if i < d.len() {
                    assert(s[i] == d[i]);
                } else if i == d.len() {
                    assert(s[i + 1] == t[0]);
                } else {
                    assert(s[i] == t[i - d.len() - 1]);
                    assert(s[i + 1] == t[i - d.len()]);
                }
            }
            assert forall|i: int| 0 <= i < s.len() implies is_digit(#[trigger] s[i], true) || s[i]
                == ':' by {
                if i < d.len() {
                    assert(s[i] == d[i]);
                } else if i > d.len() {
                    assert(s[i] == t[i - d.len() - 1]);
                }
            }
        }
    }
}

/// `run_len` really counts zeros, and `best_run` stays inside.
proof fn lemma_run(g: Seq<u16>, i: int)
    requires
        0 <= i <= g.len(),
    ensures
        0 <= run_len(g, i),
        i + run_len(g, i) <= g.len(),
        forall|j: int| i <= j < i + run_len(g, i) ==> g[j] == 0,
        i <= best_run(g, i) <= g.len(),
    decreases g.len() - i,
{
    if i < g.len() {
        lemma_run(g, i + 1);
    }
}

proof fn lemma_octets_groups(o: Seq<u8>)
    requires
        o.len() == 16,
    ensures
        octets_of(groups_of(o)) == o,
{
    assert forall|i: int| 0 <= i < 16 implies octets_of(groups_of(o))[i] == o[i] by {
        let g = groups_of(o)[i / 2];
        assert(g == o[2 * (i / 2)] * 256 + o[2 * (i / 2) + 1]);
    }
    assert(octets_of(groups_of(o)) =~= o);
}

/// An IPv4 address is read back from its own text.
pub proof fn law_v4_text_reads_back(o: Seq<u8>)
    requires
        o.len() == 4,
    ensures
        v4(v4_text(o)) == Some(o),
        all_address_chars(v4_text(o)),
{
    lemma_dotted(o);
}

proof fn lemma_quad_chars(s: Seq<char>, n: nat)
    requires
        octets_text(s, n) is Some,
    ensures
        forall|i: int| 0 <= i < s.len() ==> is_digit(#[trigger] s[i], false) || s[i] == '.',
        n > 1 ==> exists|i: int| 0 <= i < s.len() && s[i] == '.',
    decreases n,
{
    if n > 1 {
        let k = find(s, '.');
        lemma_find(s, '.');
        let head = s.take(k);
        let rest = s.skip(k + 1);
        lemma_quad_chars(rest, (n - 1) as nat);
        assert forall|i: int| 0 <= i < s.len() implies is_digit(#[trigger] s[i], false) || s[i]
            == '.' by {
            if i < k {
                assert(is_digit(head[i], false));
            } else if i > k {
                assert(s[i] == rest[i - k - 1]);
            }
        }
        assert(s[k] == '.');
    }
}

/// No text is both an IPv4 and an IPv6 address.
pub proof fn law_v4_is_not_v6(s: Seq<char>)
    requires
        v4(s) is Some,
    ensures
        v6(s) is None,
{
    lemma_quad_chars(s, 4);
    assert forall|i: int| 0 <= i < s.len() implies s[i] != ':' by {
        assert(is_digit(s[i], false) || s[i] == '.');
    }
    lemma_gap_is(s, s.len() as int);
    lemma_find_is(s, ':', s.len() as int);
    let dot = choose|i: int| 0 <= i < s.len() && s[i] == '.';
    assert(!is_digit(s[dot], true));
}

#[verifier::rlimit(40)]
proof fn lemma_mapped_text(o: Seq<u8>)
    requires
        o.len() == 16,
        is_mapped(o),
    ensures
        v6_groups(v6_text(o)) == Some(groups_of(o)),
        all_address_chars(v6_text(o)),
{
    let g = groups_of(o);
    let text = v6_text(o);
    let q = o.skip(12);
    let d = dotted(q);
    let ffff = seq!['f', 'f', 'f', 'f'];
    let back = ffff.push(':') + d;
    lemma_dotted(q);
    assert(text.take(0) =~= seq![]);
    assert(text.skip(2) =~= back);
    assert(text[0] == ':' && text[1] == ':');
    lemma_gap_is(text, 0);
    lemma_find_after_digits(back, ffff, true, ':', d);
    assert(hex_piece(ffff) == Some(0xffffu16)) by {
        reveal_with_fuel(number, 5);
        assert(ffff.drop_last() =~= seq!['f', 'f', 'f']);
        assert(ffff.drop_last().drop_last() =~= seq!['f', 'f']);
        assert(ffff.drop_last().drop_last().drop_last() =~= seq!['f']);
        assert(ffff.drop_last().drop_last().drop_last().drop_last() =~= seq![]);
    }
    assert forall|i: int| 0 <= i < d.len() implies d[i] != ':' by {
        assert(is_digit(d[i], false) || d[i] == '.');
    }
    lemma_find_is(d, ':', d.len() as int);
    assert(hex_piece(d) is None) by {
        let i = choose|i: int| 0 <= i < d.len() && d[i] == '.';
        assert(!is_digit(d[i], true));
    }
    let last = seq![pair(q[0], q[1]), pair(q[2], q[3])];
    let tail = seq![0xffffu16] + last;
    assert(groups(d, true) == Some(last));
    assert(groups(back, true) == Some(tail));
    assert(side(text.skip(2), true) == Some(tail));
    assert(side(text.take(0), false) == Some(Seq::<u16>::empty()));
    assert(Seq::<u16>::empty() + zeros(5) + tail =~= g);
    assert forall|i: int| 0 <= i < text.len() implies is_address_char(#[trigger] text[i]) by {
        if i >= 7 {
            assert(text[i] == d[i - 7]);
        }
    }
}

proof fn lemma_gap_text(g: Seq<u16>, s: int, n: int)
    requires
        g.len() == 8,
        0 <= s,
        1 < n,
        s + n <= 8,
        forall|j: int| s <= j < s + n ==> g[j] == 0,
    ensures
        v6_groups(colons(g.take(s)) + seq![':', ':'] + colons(g.skip(s + n))) == Some(g),
        all_address_chars(colons(g.take(s)) + seq![':', ':'] + colons(g.skip(s + n))),
{
    let h = g.take(s);
    let t = g.skip(s + n);
    let a = colons(h);
    let b = colons(t);
    let text = a + seq![':', ':'] + b;
    lemma_colons(h, false);
    lemma_colons(t, true);
    assert forall|i: int|
        #![trigger text[i]]
        0 <= i < a.len() && i + 1 < text.len() implies !(text[i] == ':' && text[i + 1] == ':') by {
        assert(text[i] == a[i]);
        if a[i] == ':' {
            assert(text[i + 1] == a[i + 1]);
        }
    }
    assert(text[a.len() as int] == ':' && text[a.len() as int + 1] == ':');
    lemma_gap_is(text, a.len() as int);
    assert(text.take(a.len() as int) =~= a);
    assert(text.skip(a.len() as int + 2) =~= b);
    assert(h + zeros(8 - h.len() - t.len()) + t =~= g);
    assert forall|i: int| 0 <= i < text.len() implies is_address_char(#[trigger] text[i]) by {
        if i < a.len() {
            assert(text[i] == a[i]);
        } else if i >= a.len() + 2 {
            assert(text[i] == b[i - a.len() - 2]);
        }
    }
}

proof fn lemma_full_text(g: Seq<u16>)
    requires
        g.len() == 8,
    ensures
        v6_groups(colons(g)) == Some(g),
        all_address_chars(colons(g)),
{
    let text = colons(g);
    lemma_colons(g, true);
    assert(find_gap(text) == text.len()) by {
        lemma_gap(text);
        let k = find_gap(text);
        if k < text.len() {
            assert(text[k] == ':');
        }
    }
}

/// An IPv6 address is read back from its own text.
pub proof fn law_v6_text_reads_back(o: Seq<u8>)
    requires
        o.len() == 16,
    ensures
        v6(v6_text(o)) == Some(o),
        all_address_chars(v6_text(o)),
{
    let g = groups_of(o);
    assert(v6_groups(v6_text(o)) == Some(g) && all_address_chars(v6_text(o))) by {
        let s = best_run(g, 0);
        let n = run_len(g, s);
        if is_mapped(o) {
            lemma_mapped_text(o);
        } else if n > 1 {
            lemma_run(g, 0);
            lemma_run(g, s);
            lemma_gap_text(g, s, n);
            assert(v6_text(o) == colons(g.take(s)) + seq![':', ':'] + colons(g.skip(s + n)));
        } else {
            lemma_full_text(g);
            assert(v6_text(o) == colons(g));
        }
    }
    lemma_octets_groups(o);
}

/// A group is one to four hexadecimal digits of either size, worth what they say.
pub proof fn law_groups_are_read_by_their_digits(s: Seq<char>, c: char, d: int)
    requires
        '0' <= c <= '9' && d == c as int - 0x30 || 'a' <= c <= 'f' && d == c as int - 0x61 + 10
            || 'A' <= c <= 'F' && d == c as int - 0x41 + 10,
    ensures
        hex_piece(seq![c]) == Some(d as u16),
        hex_piece(s) matches Some(g) ==> hex_piece(s.push(c)) == if s.len() < 4 {
            Some((16 * g + d) as u16)
        } else {
            None
        },
        hex_piece(seq![]) is None,
{
    let one = seq![c];
    assert(one.drop_last() =~= seq![]);
    assert(number(one.drop_last(), true) == 0);
    assert(is_digit(one[0], true));
    assert(hex_piece(one) == Some(d as u16));
    if hex_piece(s) is Some {
        let more = s.push(c);
        assert(more.drop_last() =~= s);
        assert forall|i: int| 0 <= i < more.len() implies is_digit(#[trigger] more[i], true) by {
            if i < s.len() {
                assert(is_digit(s[i], true));
            }
        }
        lemma_small_number(s, true);
    }
}

/// Nothing else is a group.
pub proof fn law_only_hex_digits_are_groups(s: Seq<char>)
    ensures
        hex_piece(s) is Some ==> 1 <= s.len() <= 4 && forall|i: int|
            0 <= i < s.len() ==> '0' <= #[trigger] s[i] <= '9' || 'a' <= s[i] <= 'f' || 'A' <= s[i]
                <= 'F',
{
    if hex_piece(s) is Some {
        assert forall|i: int| 0 <= i < s.len() implies '0' <= #[trigger] s[i] <= '9' || 'a' <= s[i]
            <= 'f' || 'A' <= s[i] <= 'F' by {
            assert(is_digit(s[i], true));
        }
    }
}

/// An IPv4 address is written as its four octets in decimal with dots between.
pub proof fn law_v4_text_is_four_decimals(o: Seq<u8>)
    requires
        o.len() == 4,
    ensures
        v4_text(o) == numeral(o[0] as int, false) + seq!['.'] + numeral(o[1] as int, false)
            + seq!['.'] + numeral(o[2] as int, false) + seq!['.'] + numeral(o[3] as int, false),
{
    let o1 = o.drop_first();
    let o2 = o1.drop_first();
    let o3 = o2.drop_first();
    assert(dotted(o3) == numeral(o[3] as int, false));
    assert(dotted(o2) =~= numeral(o[2] as int, false) + seq!['.'] + dotted(o3));
    assert(dotted(o1) =~= numeral(o[1] as int, false) + seq!['.'] + dotted(o2));
    assert(dotted(o) =~= numeral(o[0] as int, false) + seq!['.'] + dotted(o1));
    assert(v4_text(o) =~= numeral(o[0] as int, false) + seq!['.'] + numeral(o[1] as int, false)
        + seq!['.'] + numeral(o[2] as int, false) + seq!['.'] + numeral(o[3] as int, false));
}

/// Nothing is read as an IPv4 address but the one way to write it: no leading zeros, no
/// octet above 255, none missing and none too many.
pub proof fn law_only_its_own_text_is_v4(s: Seq<char>, o: Seq<u8>)
    requires
        v4(s) == Some(o),
    ensures
        o.len() == 4,
        s == v4_text(o),
{
    lemma_v4_len(s);
    lemma_only_dotted(s, o, 4);
}

proof fn lemma_only_dotted(s: Seq<char>, o: Seq<u8>, n: nat)
    requires
        n >= 1,
        octets_text(s, n) == Some(o),
    ensures
        o.len() == n,
        s == dotted(o),
    decreases n,
{
    lemma_octets_len(s, n);
    if n == 1 {
        lemma_only_numeral(s);
    } else {
        let k = find(s, '.');
        lemma_find(s, '.');
        let head = s.take(k);
        let rest = s.skip(k + 1);
        lemma_only_numeral(head);
        lemma_only_dotted(rest, octets_text(rest, (n - 1) as nat)->Some_0, (n - 1) as nat);
        assert(o.drop_first() =~= octets_text(rest, (n - 1) as nat)->Some_0);
        assert(s[k] == '.');
        assert(s =~= head.push('.') + rest);
    }
}

proof fn lemma_only_numeral(s: Seq<char>)
    requires
        dec_piece(s) is Some,
    ensures
        s == numeral(dec_piece(s)->Some_0 as int, false),
{
    assert forall|i: int| 0 <= i < s.len() implies '0' <= #[trigger] s[i] <= '9' by {
        assert(is_digit(s[i], false));
    }
    law_numerals_are_unique(s);
}

// --- the text of an IPv6 address, piece by piece ------------------------------

/// Pieces with a colon between each two.
pub open spec fn joined(ps: Seq<Seq<char>>) -> Seq<char>
    decreases ps.len(),
{
    if ps.len() == 0 {
        seq![]
    } else if ps.len() == 1 {
        ps[0]
    } else {
        ps[0] + seq![':'] + joined(ps.drop_first())
    }
}

/// The pieces are these groups.
pub open spec fn are_groups(ps: Seq<Seq<char>>, g: Seq<u16>) -> bool {
    &&& ps.len() == g.len()
    &&& forall|i: int| 0 <= i < ps.len() ==> hex_piece(#[trigger] ps[i]) == Some(g[i])
}

proof fn lemma_joined(ps: Seq<Seq<char>>, g: Seq<u16>, tail: bool)
    requires
        are_groups(ps, g),
    ensures
        side(joined(ps), tail) == Some(g),
        ps.len() > 0 ==> groups(joined(ps), tail) == Some(g),
        ps.len() > 0 ==> joined(ps).len() > 0 && joined(ps)[0] != ':',
        forall|i: int|
            #![trigger joined(ps)[i]]
            0 <= i < joined(ps).len() && joined(ps)[i] == ':' ==> i + 1 < joined(ps).len()
                && joined(ps)[i + 1] != ':',
    decreases ps.len(),
{
    let s = joined(ps);
    if ps.len() == 0 {
        assert(g =~= seq![]);
    } else {
        let d = ps[0];
        assert(hex_piece(d) == Some(g[0]));
        assert forall|i: int| 0 <= i < d.len() implies d[i] != ':' by {
            assert(is_digit(d[i], true));
        }
        if ps.len() == 1 {
            assert(seq![g[0]] =~= g);
            lemma_find_is(s, ':', s.len() as int);
        } else {
            let rest = ps.drop_first();
            let t = joined(rest);
            assert forall|i: int| 0 <= i < rest.len() implies hex_piece(#[trigger] rest[i]) == Some(
                g.drop_first()[i],
            ) by {
                assert(rest[i] == ps[i + 1]);
            }
            lemma_joined(rest, g.drop_first(), tail);
            assert(s =~= d.push(':') + t);
            lemma_find_after_digits(s, d, true, ':', t);
            assert(seq![g[0]] + g.drop_first() =~= g);
            assert(s[0] == d[0]);
            assert forall|i: int|
                #![trigger s[i]]
                0 <= i < s.len() && s[i] == ':' implies i + 1 < s.len() && s[i + 1] != ':' by {
                if i < d.len() {
                    assert(s[i] == d[i]);
                } else if i == d.len() {
                    assert(s[i + 1] == t[0]);
                } else {
                    assert(s[i] == t[i - d.len() - 1]);
                    assert(s[i + 1] == t[i - d.len()]);
                }
            }
        }
    }
}

/// Eight groups with colons between are the sixteen octets of an address, two to a
/// group; fewer or more are none.
pub proof fn law_eight_groups_are_an_address(ps: Seq<Seq<char>>, g: Seq<u16>)
    requires
        are_groups(ps, g),
    ensures
        ps.len() == 8 ==> {
            &&& v6(joined(ps)) matches Some(o)
            &&& o.len() == 16
            &&& forall|i: int| 0 <= i < 8 ==> #[trigger] g[i] == 256 * o[2 * i] + o[2 * i + 1]
        },
        ps.len() != 8 ==> v6(joined(ps)) is None,
{
    let s = joined(ps);
    lemma_joined(ps, g, true);
    assert(find_gap(s) == s.len()) by {
        lemma_gap(s);
        let k = find_gap(s);
        if k < s.len() {
            assert(s[k] == ':');
        }
    }
    if ps.len() == 8 {
        lemma_groups_octets(g);
    }
    if ps.len() == 0 {
        lemma_find_is(s, ':', 0);
        lemma_quad_needs_text(s);
    }
}

proof fn lemma_quad_needs_text(s: Seq<char>)
    requires
        s.len() == 0,
    ensures
        v4(s) is None,
{
    lemma_find(s, '.');
}

proof fn lemma_groups_octets(g: Seq<u16>)
    requires
        g.len() == 8,
    ensures
        forall|i: int|
            0 <= i < 8 ==> #[trigger] g[i] == 256 * octets_of(g)[2 * i] + octets_of(g)[2 * i + 1],
{
    let o = octets_of(g);
    assert forall|i: int| 0 <= i < 8 implies #[trigger] g[i] == 256 * o[2 * i] + o[2 * i + 1] by {
        assert((2 * i) / 2 == i && (2 * i + 1) / 2 == i);
        assert((2 * i) % 2 == 0 && (2 * i + 1) % 2 == 1);
    }
}

/// With `::` among them, at most seven groups are an address: those in front of it at
/// the start, those behind it at the end, and zeros between. More are none.
pub proof fn law_gap_stands_for_zeros(
    ps: Seq<Seq<char>>,
    g: Seq<u16>,
    qs: Seq<Seq<char>>,
    h: Seq<u16>,
)
    requires
        are_groups(ps, g),
        are_groups(qs, h),
    ensures
        ps.len() + qs.len() <= 7 ==> {
            &&& v6(joined(ps) + seq![':', ':'] + joined(qs)) matches Some(o)
            &&& o.len() == 16
            &&& forall|i: int|
                #![trigger o[2 * i]]
                0 <= i < 8 ==> 256 * o[2 * i] + o[2 * i + 1] == if i < g.len() {
                    g[i] as int
                } else if i < 8 - h.len() {
                    0
                } else {
                    h[i - (8 - h.len())] as int
                }
        },
        ps.len() + qs.len() > 7 ==> v6(joined(ps) + seq![':', ':'] + joined(qs)) is None,
{
    let a = joined(ps);
    let b = joined(qs);
    let text = a + seq![':', ':'] + b;
    lemma_joined(ps, g, false);
    lemma_joined(qs, h, true);
    assert forall|i: int|
        #![trigger text[i]]
        0 <= i < a.len() && i + 1 < text.len() implies !(text[i] == ':' && text[i + 1] == ':') by {
        assert(text[i] == a[i]);
        if a[i] == ':' {
            assert(text[i + 1] == a[i + 1]);
        }
    }
    assert(text[a.len() as int] == ':' && text[a.len() as int + 1] == ':');
    lemma_gap_is(text, a.len() as int);
    assert(text.take(a.len() as int) =~= a);
    assert(text.skip(a.len() as int + 2) =~= b);
    if ps.len() + qs.len() <= 7 {
        let all = g + zeros(8 - g.len() - h.len()) + h;
        assert(v6_groups(text) == Some(all));
        lemma_groups_octets(all);
        let o = octets_of(all);
        assert forall|i: int|
            #![trigger o[2 * i]]
            0 <= i < 8 implies 256 * o[2 * i] + o[2 * i + 1] == if i < g.len() {
            g[i] as int
        } else if i < 8 - h.len() {
            0
        } else {
            h[i - (8 - h.len())] as int
        } by {
            assert(all[i] == 256 * o[2 * i] + o[2 * i + 1]);
        }
    }
}

proof fn lemma_split(s: Seq<char>, g: Seq<u16>) -> (ps: Seq<Seq<char>>)
    requires
        groups(s, false) == Some(g),
    ensures
        are_groups(ps, g),
        s == joined(ps),
        ps.len() > 0,
    decreases s.len(),
{
    let k = find(s, ':');
    lemma_find(s, ':');
    if k >= s.len() {
        let ps = seq![s];
        assert(joined(ps) == s);
        assert(g.len() == 1);
        ps
    } else {
        let head = s.take(k);
        let rest = s.skip(k + 1);
        let gr = groups(rest, false)->Some_0;
        let few = lemma_split(rest, gr);
        let ps = seq![head] + few;
        assert(ps.drop_first() =~= few);
        assert(s[k] == ':');
        assert(s =~= head + seq![':'] + rest);
        assert forall|i: int| 0 <= i < ps.len() implies hex_piece(#[trigger] ps[i]) == Some(g[i]) by {
            if i > 0 {
                assert(ps[i] == few[i - 1]);
            }
        }
        ps
    }
}

/// The text is pieces that are these groups, or ends in a dotted quad for the last two.
pub open spec fn spells(s: Seq<char>, g: Seq<u16>) -> bool {
    ||| exists|ps: Seq<Seq<char>>| #[trigger] are_groups(ps, g) && s == joined(ps)
    ||| exists|ps: Seq<Seq<char>>, q: Seq<u8>|
        {
            &&& #[trigger] spells_quad(ps, q, g)
            &&& s == joined(ps.push(v4_text(q)))
        }
}

pub open spec fn spells_quad(ps: Seq<Seq<char>>, q: Seq<u8>, g: Seq<u16>) -> bool {
    &&& q.len() == 4
    &&& g.len() == ps.len() + 2
    &&& are_groups(ps, g.take(ps.len() as int))
    &&& g[ps.len() as int] == 256 * q[0] + q[1]
    &&& g[ps.len() as int + 1] == 256 * q[2] + q[3]
}

/// The text is groups, `::`, and groups or nothing, seven groups at most.
pub open spec fn spells_with_gap(
    s: Seq<char>,
    ps: Seq<Seq<char>>,
    g: Seq<u16>,
    b: Seq<char>,
    h: Seq<u16>,
) -> bool {
    &&& are_groups(ps, g)
    &&& b.len() == 0 && h.len() == 0 || spells(b, h)
    &&& g.len() + h.len() <= 7
    &&& s == joined(ps) + seq![':', ':'] + b
}

proof fn lemma_spelt(s: Seq<char>, g: Seq<u16>)
    requires
        groups(s, true) == Some(g),
    ensures
        spells(s, g),
        s.len() > 0,
    decreases s.len(),
{
    let k = find(s, ':');
    lemma_find(s, ':');
    if k >= s.len() {
        if hex_piece(s) is Some {
            let ps = seq![s];
            assert(are_groups(ps, g));
            assert(s == joined(ps));
        } else {
            let q = v4(s)->Some_0;
            law_only_its_own_text_is_v4(s, q);
            lemma_dotted(q);
            let none: Seq<Seq<char>> = seq![];
            assert(none.push(s).len() == 1);
            assert(spells_quad(none, q, g));
            assert(s == joined(none.push(v4_text(q))));
        }
    } else {
        let head = s.take(k);
        let rest = s.skip(k + 1);
        let gr = groups(rest, true)->Some_0;
        lemma_spelt(rest, gr);
        assert(s[k] == ':');
        assert(s =~= head + seq![':'] + rest);
        assert(g =~= seq![g[0]] + gr);
        if exists|ps: Seq<Seq<char>>| #[trigger] are_groups(ps, gr) && rest == joined(ps) {
            let few = choose|ps: Seq<Seq<char>>| #[trigger] are_groups(ps, gr) && rest == joined(ps);
            let ps = seq![head] + few;
            assert(ps.drop_first() =~= few);
            assert(few.len() > 0) by {
                if few.len() == 0 {
                    assert(rest.len() == 0);
                }
            }
            assert forall|i: int| 0 <= i < ps.len() implies hex_piece(#[trigger] ps[i]) == Some(
                g[i],
            ) by {
                if i > 0 {
                    assert(ps[i] == few[i - 1]);
                }
            }
            assert(are_groups(ps, g));
            assert(s == joined(ps));
        } else {
            let (few, q) = choose|ps: Seq<Seq<char>>, q: Seq<u8>|
                {
                    &&& #[trigger] spells_quad(ps, q, gr)
                    &&& rest == joined(ps.push(v4_text(q)))
                };
            let ps = seq![head] + few;
            let gp = g.take(ps.len() as int);
            assert(ps.push(v4_text(q)).drop_first() =~= few.push(v4_text(q)));
            assert forall|i: int| 0 <= i < ps.len() implies hex_piece(#[trigger] ps[i]) == Some(
                gp[i],
            ) by {
                if i > 0 {
                    assert(ps[i] == few[i - 1]);
                    assert(gr.take(few.len() as int)[i - 1] == gr[i - 1]);
                }
            }
            assert(are_groups(ps, gp));
            assert(spells_quad(ps, q, g));
            assert(s == joined(ps.push(v4_text(q))));
        }
    }
}

/// Nothing else is read as an IPv6 address: it is eight groups with colons between, or
/// at most seven with `::` among them, where the last two may be a dotted quad.
pub proof fn law_only_groups_are_an_address(s: Seq<char>, o: Seq<u8>)
    requires
        v6(s) == Some(o),
    ensures
        o.len() == 16,
        (exists|g: Seq<u16>| g.len() == 8 && #[trigger] spells(s, g)) || (exists|
            ps: Seq<Seq<char>>,
            g: Seq<u16>,
            b: Seq<char>,
            h: Seq<u16>,
        | #[trigger] spells_with_gap(s, ps, g, b, h)),
{
    let k = find_gap(s);
    if k < s.len() {
        lemma_gap(s);
        let a = s.take(k);
        let b = s.skip(k + 2);
        let g = side(a, false)->Some_0;
        let h = side(b, true)->Some_0;
        assert(s =~= a + seq![':', ':'] + b);
        let ps = if a.len() == 0 {
            assert(are_groups(seq![], g));
            assert(a =~= joined(seq![]));
            seq![]
        } else {
            lemma_split(a, g)
        };
        assert(are_groups(ps, g) && a == joined(ps));
        if b.len() > 0 {
            lemma_spelt(b, h);
        }
        assert(spells_with_gap(s, ps, g, b, h));
    } else {
        let g = groups(s, true)->Some_0;
        lemma_spelt(s, g);
        assert(g.len() == 8 && spells(s, g));
    }
}

/// A dotted quad may stand for the last two of eight groups.
pub proof fn law_quad_may_end_an_address(ps: Seq<Seq<char>>, g: Seq<u16>, q: Seq<u8>)
    requires
        q.len() == 4,
        ps.len() == 6,
        are_groups(ps, g),
    ensures
        v6(joined(ps.push(v4_text(q)))) matches Some(o) && o.len() == 16 && o.skip(12) == q
            && forall|i: int| 0 <= i < 6 ==> #[trigger] g[i] == 256 * o[2 * i] + o[2 * i + 1],
{
    let t = joined(ps.push(v4_text(q)));
    let last = seq![pair(q[0], q[1]), pair(q[2], q[3])];
    let all = g + last;
    let o = octets_of(all);
    lemma_quad_tail(ps, g, q);
    assert(find_gap(t) == t.len()) by {
        lemma_gap(t);
        let k = find_gap(t);
        if k < t.len() {
            assert(t[k] == ':');
        }
    }
    assert(v6(t) == Some(o));
    assert(o.skip(12) =~= q) by {
        lemma_last_octets(all, q);
    }
    lemma_groups_octets(all);
    assert forall|i: int| 0 <= i < 6 implies #[trigger] g[i] == 256 * o[2 * i] + o[2 * i + 1] by {
        assert(all[i] == 256 * o[2 * i] + o[2 * i + 1]);
    }
}

proof fn lemma_last_octets(g: Seq<u16>, q: Seq<u8>)
    requires
        g.len() == 8,
        q.len() == 4,
        g[6] == pair(q[0], q[1]),
        g[7] == pair(q[2], q[3]),
    ensures
        octets_of(g).skip(12) == q,
{
    let o = octets_of(g);
    assert(o[12] == q[0] && o[13] == q[1] && o[14] == q[2] && o[15] == q[3]);
    assert(o.skip(12) =~= q);
}

/// The same with a gap in front of the groups that the quad follows.
pub proof fn law_quad_may_follow_a_gap(
    ps: Seq<Seq<char>>,
    g: Seq<u16>,
    qs: Seq<Seq<char>>,
    h: Seq<u16>,
    q: Seq<u8>,
)
    requires
        q.len() == 4,
        ps.len() + qs.len() <= 5,
        are_groups(ps, g),
        are_groups(qs, h),
    ensures
        v6(joined(ps) + seq![':', ':'] + joined(qs.push(v4_text(q)))) matches Some(o) && o.len()
            == 16 && o.skip(12) == q && forall|i: int|
            #![trigger o[2 * i]]
            0 <= i < 6 ==> 256 * o[2 * i] + o[2 * i + 1] == if i < g.len() {
                g[i] as int
            } else if i < 6 - h.len() {
                0
            } else {
                h[i - (6 - h.len())] as int
            },
{
    let a = joined(ps);
    let t = joined(qs.push(v4_text(q)));
    let last = seq![pair(q[0], q[1]), pair(q[2], q[3])];
    let text = a + seq![':', ':'] + t;
    let back = h + last;
    let all = g + zeros(8 - g.len() - back.len()) + back;
    let o = octets_of(all);
    lemma_joined(ps, g, false);
    lemma_quad_tail(qs, h, q);
    assert(v6_groups(text) == Some(all)) by {
        assert forall|i: int|
            #![trigger text[i]]
            0 <= i < a.len() && i + 1 < text.len() implies !(text[i] == ':' && text[i + 1]
            == ':') by {
            assert(text[i] == a[i]);
            if a[i] == ':' {
                assert(text[i + 1] == a[i + 1]);
            }
        }
        assert(text[a.len() as int] == ':' && text[a.len() as int + 1] == ':');
        lemma_gap_is(text, a.len() as int);
        assert(text.take(a.len() as int) =~= a);
        assert(text.skip(a.len() as int + 2) =~= t);
    }
    assert(o.skip(12) =~= q) by {
        lemma_last_octets(all, q);
    }
    lemma_groups_octets(all);
    assert forall|i: int|
        #![trigger o[2 * i]]
        0 <= i < 6 implies 256 * o[2 * i] + o[2 * i + 1] == if i < g.len() {
        g[i] as int
    } else if i < 6 - h.len() {
        0
    } else {
        h[i - (6 - h.len())] as int
    } by {
        assert(all[i] == 256 * o[2 * i] + o[2 * i + 1]);
    }
}

proof fn lemma_quad_tail(ps: Seq<Seq<char>>, g: Seq<u16>, q: Seq<u8>)
    requires
        q.len() == 4,
        are_groups(ps, g),
    ensures
        groups(joined(ps.push(v4_text(q))), true) == Some(
            g + seq![pair(q[0], q[1]), pair(q[2], q[3])],
        ),
        joined(ps.push(v4_text(q))).len() > 0,
        joined(ps.push(v4_text(q)))[0] != ':',
        forall|i: int|
            #![trigger joined(ps.push(v4_text(q)))[i]]
            0 <= i < joined(ps.push(v4_text(q))).len() && joined(ps.push(v4_text(q)))[i] == ':'
                ==> i + 1 < joined(ps.push(v4_text(q))).len() && joined(ps.push(v4_text(q)))[i + 1]
                != ':',
    decreases ps.len(),
{
    let d = v4_text(q);
    let all = ps.push(d);
    let s = joined(all);
    let last = seq![pair(q[0], q[1]), pair(q[2], q[3])];
    lemma_dotted(q);
    if ps.len() == 0 {
        assert(s == d);
        assert forall|i: int| 0 <= i < d.len() implies d[i] != ':' by {
            assert(is_digit(d[i], false) || d[i] == '.');
        }
        lemma_find_is(d, ':', d.len() as int);
        assert(hex_piece(d) is None) by {
            let i = choose|i: int| 0 <= i < d.len() && d[i] == '.';
            assert(!is_digit(d[i], true));
        }
        assert(g + last =~= last);
    } else {
        let p = ps[0];
        let rest = ps.drop_first();
        let t = joined(rest.push(d));
        assert(hex_piece(p) == Some(g[0]));
        assert forall|i: int| 0 <= i < rest.len() implies hex_piece(#[trigger] rest[i]) == Some(
            g.drop_first()[i],
        ) by {
            assert(rest[i] == ps[i + 1]);
        }
        lemma_quad_tail(rest, g.drop_first(), q);
        assert(all.drop_first() =~= rest.push(d));
        assert(s =~= p.push(':') + t);
        lemma_find_after_digits(s, p, true, ':', t);
        assert(seq![g[0]] + (g.drop_first() + last) =~= g + last);
        assert(s[0] == p[0] && is_digit(p[0], true));
        assert forall|i: int|
            #![trigger s[i]]
            0 <= i < s.len() && s[i] == ':' implies i + 1 < s.len() && s[i + 1] != ':' by {
            if i < p.len() {
                assert(s[i] == p[i]);
                assert(is_digit(p[i], true));
            } else if i == p.len() {
                assert(s[i + 1] == t[0]);
            } else {
                assert(s[i] == t[i - p.len() - 1]);
                assert(s[i + 1] == t[i - p.len()]);
            }
        }
    }
}

// --- how an IPv6 address is written -------------------------------------------

/// Each group in the fewest small hexadecimal digits.
pub open spec fn shortest(g: Seq<u16>) -> Seq<Seq<char>> {
    Seq::new(g.len(), |i: int| numeral(g[i] as int, true))
}

proof fn lemma_colons_joined(g: Seq<u16>)
    ensures
        colons(g) == joined(shortest(g)),
    decreases g.len(),
{
    if g.len() > 1 {
        lemma_colons_joined(g.drop_first());
        assert(shortest(g).drop_first() =~= shortest(g.drop_first()));
        let d = numeral(g[0] as int, true);
        assert(d.push(':') + colons(g.drop_first()) =~= d + seq![':'] + colons(g.drop_first()));
    }
}

proof fn lemma_best(g: Seq<u16>, i: int)
    requires
        0 <= i <= g.len(),
    ensures
        i <= best_run(g, i) <= g.len(),
        forall|j: int|
            i <= j <= g.len() ==> #[trigger] run_len(g, j) <= run_len(g, best_run(g, i)),
        forall|j: int| i <= j < best_run(g, i) ==> #[trigger] run_len(g, j) < run_len(
            g,
            best_run(g, i),
        ),
    decreases g.len() - i,
{
    if i < g.len() {
        lemma_best(g, i + 1);
        lemma_run(g, i);
    } else {
        lemma_run(g, i);
    }
}

proof fn lemma_run_reaches(g: Seq<u16>, i: int, n: int)
    requires
        0 <= i,
        0 <= n,
        i + n <= g.len(),
        forall|j: int| i <= j < i + n ==> #[trigger] g[j] == 0,
    ensures
        run_len(g, i) >= n,
    decreases n,
{
    if n > 0 {
        assert(g[i] == 0);
        lemma_run_reaches(g, i + 1, n - 1);
    } else {
        lemma_run(g, i);
    }
}

/// `n` zero groups stand in a row from `i` on.
pub open spec fn zero_run(g: Seq<u16>, i: int, n: int) -> bool {
    &&& 0 <= i
    &&& i + n <= g.len()
    &&& forall|j: int| i <= j < i + n ==> #[trigger] g[j] == 0
}

/// An address is written in small hexadecimal digits without leading zeros. The longest
/// run of two or more zero groups is left out as `::`, the first of them where several
/// are as long; without such a run nothing is. A mapped IPv4 address is `::ffff:` and
/// the dotted quad.
pub proof fn law_v6_text_is_the_short_form(o: Seq<u8>, g: Seq<u16>)
    requires
        o.len() == 16,
        g.len() == 8,
        forall|i: int| 0 <= i < 8 ==> #[trigger] g[i] == 256 * o[2 * i] + o[2 * i + 1],
    ensures
        zero_run(g, 0, 5) && g[5] == 0xffff ==> v6_text(o) == seq![
            ':',
            ':',
            'f',
            'f',
            'f',
            'f',
            ':',
        ] + v4_text(o.skip(12)),
        !(zero_run(g, 0, 5) && g[5] == 0xffff) ==> {
            ||| exists|s: int, n: int|
                {
                    &&& n >= 2
                    &&& #[trigger] zero_run(g, s, n)
                    &&& forall|i: int, m: int|
                        m >= 1 && #[trigger] zero_run(g, i, m) ==> m < n || m == n && i >= s
                    &&& v6_text(o) == joined(shortest(g.take(s))) + seq![':', ':'] + joined(
                        shortest(g.skip(s + n)),
                    )
                }
            ||| (forall|i: int| !#[trigger] zero_run(g, i, 2)) && v6_text(o) == joined(shortest(g))
        },
{
    let w = groups_of(o);
    let five = 5int;
    assert forall|i: int| 0 <= i < 8 implies w[i] == g[i] by {
        assert(g[i] == 256 * o[2 * i] + o[2 * i + 1]);
    }
    assert(w =~= g);
    let s = best_run(g, 0);
    let n = run_len(g, s);
    lemma_best(g, 0);
    lemma_run(g, s);
    assert(is_mapped(o) <==> zero_run(g, 0, 5) && g[5] == 0xffff) by {
        if is_mapped(o) {
            assert forall|j: int| 0 <= j < 5 implies #[trigger] g[j] == 0 by {
                assert(o[2 * j] == 0 && o[2 * j + 1] == 0);
            }
            assert(zero_run(g, 0, 5));
            assert(g[five] == 256 * o[2 * five] + o[2 * five + 1]);
        }
        if zero_run(g, 0, 5) && g[5] == 0xffff {
            assert(g[five] == 256 * o[2 * five] + o[2 * five + 1]);
            assert forall|i: int| 0 <= i < 10 implies #[trigger] o[i] == 0 by {
                let j = i / 2;
                assert(g[j] == 0);
                assert(g[j] == 256 * o[2 * j] + o[2 * j + 1]);
                assert(i == 2 * j || i == 2 * j + 1);
            }
        }
    }
    assert forall|i: int, m: int| m >= 1 && #[trigger] zero_run(g, i, m) implies m < n || m == n
        && i >= s by {
        lemma_run_reaches(g, i, m);
        assert(run_len(g, i) <= run_len(g, s));
        if i < s {
            assert(run_len(g, i) < run_len(g, s));
        }
    }
    if !is_mapped(o) {
        if n > 1 {
            lemma_colons_joined(g.take(s));
            lemma_colons_joined(g.skip(s + n));
            assert(zero_run(g, s, n));
        } else {
            lemma_colons_joined(g);
            assert forall|i: int| !#[trigger] zero_run(g, i, 2) by {}
        }
    }
}

proof fn lemma_group_chars(s: Seq<char>, tail: bool)
    requires
        groups(s, tail) is Some,
    ensures
        all_address_chars(s),
    decreases s.len(),
{
    let k = find(s, ':');
    lemma_find(s, ':');
    if k >= s.len() {
        if hex_piece(s) is None {
            lemma_quad_chars(s, 4);
            assert forall|i: int| 0 <= i < s.len() implies is_address_char(#[trigger] s[i]) by {
                assert(is_digit(s[i], false) || s[i] == '.');
            }
        }
    } else {
        let head = s.take(k);
        let rest = s.skip(k + 1);
        lemma_group_chars(rest, tail);
        assert forall|i: int| 0 <= i < s.len() implies is_address_char(#[trigger] s[i]) by {
            if i < k {
                assert(is_digit(head[i], true));
            } else if i > k {
                assert(s[i] == rest[i - k - 1]);
                assert(is_address_char(rest[i - k - 1]));
            }
        }
    }
}

/// Whatever is read as an address is written in hexadecimal digits, colons and dots.
pub proof fn law_addresses_have_address_chars(s: Seq<char>)
    requires
        v4(s) is Some || v6(s) is Some,
    ensures
        s.len() > 0,
        forall|i: int|
            0 <= i < s.len() ==> '0' <= #[trigger] s[i] <= '9' || 'a' <= s[i] <= 'f' || 'A' <= s[i]
                <= 'F' || s[i] == ':' || s[i] == '.',
{
    assert(all_address_chars(s) && s.len() > 0) by {
        if v4(s) is Some {
            lemma_quad_chars(s, 4);
            assert forall|i: int| 0 <= i < s.len() implies is_address_char(#[trigger] s[i]) by {
                assert(is_digit(s[i], false) || s[i] == '.');
            }
        } else {
            let k = find_gap(s);
            if k < s.len() {
                lemma_gap(s);
                let a = s.take(k);
                let b = s.skip(k + 2);
                if a.len() > 0 {
                    lemma_group_chars(a, false);
                }
                if b.len() > 0 {
                    lemma_group_chars(b, true);
                }
                assert forall|i: int| 0 <= i < s.len() implies is_address_char(#[trigger] s[i]) by {
                    if i < k {
                        assert(s[i] == a[i]);
                        assert(is_address_char(a[i]));
                    } else if i >= k + 2 {
                        assert(s[i] == b[i - k - 2]);
                        assert(is_address_char(b[i - k - 2]));
                    }
                }
            } else {
                lemma_group_chars(s, true);
                if s.len() == 0 {
                    lemma_quad_needs_text(s);
                }
            }
        }
    }
    assert forall|i: int| 0 <= i < s.len() implies '0' <= #[trigger] s[i] <= '9' || 'a' <= s[i]
        <= 'f' || 'A' <= s[i] <= 'F' || s[i] == ':' || s[i] == '.' by {
        assert(is_address_char(s[i]));
    }
}

} // verus!
