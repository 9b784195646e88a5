//! Reading and writing text one character at a time: decimal and hexadecimal
//! numbers, and finding a separator.

use crate::order::octets_equal;
use vstd::prelude::*;
use vstd::slice::slice_subrange;
use vstd::utf8::{encode_utf8, encode_utf8_decode_utf8, valid_utf8};

verus! {

/// `String::push` appends the one character given.
pub assume_specification[ String::push ](s: &mut String, c: char)
    ensures
        final(s)@ == old(s)@.push(c),
;

/// Number of characters before the first `c`: the position of `c`, or the whole
/// length where it does not occur.
pub open spec fn find(s: Seq<char>, c: char) -> int
    decreases s.len(),
{
    if s.len() == 0 || s[0] == c {
        0
    } else {
        1 + find(s.drop_first(), c)
    }
}

pub proof fn lemma_find(s: Seq<char>, c: char)
    ensures
        0 <= find(s, c) <= s.len(),
        forall|i: int| 0 <= i < find(s, c) ==> s[i] != c,
        find(s, c) < s.len() ==> s[find(s, c)] == c,
    decreases s.len(),
{
    if s.len() != 0 && s[0] != c {
        let t = s.drop_first();
        lemma_find(t, c);
        assert forall|i: int| 0 <= i < find(s, c) implies s[i] != c by {
            if i > 0 {
                assert(s[i] == t[i - 1]);
            }
        }
    }
}

pub proof fn lemma_find_is(s: Seq<char>, c: char, k: int)
    requires
        0 <= k <= s.len(),
        forall|i: int| 0 <= i < k ==> s[i] != c,
        k < s.len() ==> s[k] == c,
    ensures
        find(s, c) == k,
{
    lemma_find(s, c);
    let f = find(s, c);
    if f < k {
        assert(s[f] != c);
    } else if k < f {
        assert(s[k] != c);
    }
}

/// Position of the first `c`, or the length where there is none.
pub fn find_char(s: &[char], c: char) -> (r: usize)
    ensures
        r == find(s@, c),
        r <= s@.len(),
{
    let mut i: usize = 0;
    while i < s.len()
        invariant
            i <= s@.len(),
            forall|j: int| 0 <= j < i ==> s@[j] != c,
        decreases s@.len() - i,
    {
        if s[i] == c {
            proof {
                lemma_find_is(s@, c, i as int);
            }
            return i;
        }
        i += 1;
    }
    proof {
        lemma_find_is(s@, c, i as int);
    }
    i
}

/// The characters of a string.
pub fn chars_of(s: &str) -> (r: Vec<char>)
    ensures
        r@ == s@,
{
    let mut out: Vec<char> = Vec::new();
    for c in it: s.chars()
        invariant
            it.seq() == s@,
            out@ == s@.take(it.index() as int),
    {
        assert(s@.take(it.index() as int + 1) =~= s@.take(it.index() as int).push(c));
        out.push(c);
    }
    assert(s@.take(s@.len() as int) =~= s@);
    out
}

/// The string of the characters given.
pub fn string_of(s: &[char]) -> (r: String)
    ensures
        r@ == s@,
{
    let mut out = String::new();
    let mut i: usize = 0;
    while i < s.len()
        invariant
            i <= s@.len(),
            out@ == s@.take(i as int),
        decreases s@.len() - i,
    {
        out.push(s[i]);
        i += 1;
        assert(s@.take(i as int) =~= s@.take(i - 1).push(s@[i - 1]));
    }
    assert(s@.take(s@.len() as int) =~= s@);
    out
}

/// The characters of several strings.
pub open spec fn texts(lists: Seq<String>) -> Seq<Seq<char>> {
    lists.map_values(|s: String| s@)
}

/// A copy of a list of strings.
pub fn copy_of(list: &[String]) -> (r: Vec<String>)
    ensures
        texts(r@) == texts(list@),
{
    let mut out: Vec<String> = Vec::new();
    let mut i: usize = 0;
    while i < list.len()
        invariant
            i <= list@.len(),
            out@.len() == i,
            forall|j: int| 0 <= j < i ==> (#[trigger] out@[j])@ == list@[j]@,
        decreases list@.len() - i,
    {
        out.push(list[i].clone());
        i += 1;
    }
    assert(texts(out@) =~= texts(list@));
    out
}

/// Two strings, one after the other.
pub fn concat(a: &str, b: &str) -> (r: String)
    ensures
        r@ == a@ + b@,
{
    let mut out = String::new();
    out.append(a);
    out.append(b);
    assert(out@ =~= a@ + b@);
    out
}

/// Whether two strings are the same.
pub fn same(a: &str, b: &str) -> (r: bool)
    ensures
        r == (a@ == b@),
{
    let r = octets_equal(a.as_bytes(), b.as_bytes());
    proof {
        encode_utf8_decode_utf8(a@);
        encode_utf8_decode_utf8(b@);
    }
    r
}

/// A string as Rust's debug format writes it: in double quotes, with the quote,
/// the backslash and whatever does not print escaped.
pub uninterp spec fn quoted(s: Seq<char>) -> Seq<char>;

/// `format!` with `{:?}` on a string. Which characters are escaped is left to
/// `quoted`; the result depends on the string alone.
#[verifier::external_body]
pub(crate) fn quote(s: &str) -> (r: String)
    ensures
        r@ == quoted(s@),
{
    format!("{s:?}")
}

/// Octets as text, with what is no UTF-8 replaced.
pub uninterp spec fn lossy(bytes: Seq<u8>) -> Seq<char>;

/// `String::from_utf8_lossy`: the text of the octets where they are valid UTF-8. What
/// stands for the parts that are not is left to `lossy`; the result depends on the
/// octets alone.
#[verifier::external_body]
pub(crate) fn lossy_text(bytes: &[u8]) -> (r: String)
    ensures
        r@ == lossy(bytes@),
        valid_utf8(bytes@) ==> encode_utf8(r@) == bytes@,
{
    String::from_utf8_lossy(bytes).into_owned()
}

// --- pieces ---------------------------------------------------------------------

/// White space, as Unicode has it.
pub open spec fn is_white(c: char) -> bool {
    ||| '\u{9}' <= c <= '\u{d}'
    ||| c == ' '
    ||| c == '\u{85}'
    ||| c == '\u{a0}'
    ||| c == '\u{1680}'
    ||| '\u{2000}' <= c <= '\u{200a}'
    ||| c == '\u{2028}'
    ||| c == '\u{2029}'
    ||| c == '\u{202f}'
    ||| c == '\u{205f}'
    ||| c == '\u{3000}'
}

pub open spec fn trimmed_front(s: Seq<char>) -> Seq<char>
    decreases s.len(),
{
    if s.len() > 0 && is_white(s[0]) {
        trimmed_front(s.drop_first())
    } else {
        s
    }
}

pub open spec fn trimmed_back(s: Seq<char>) -> Seq<char>
    decreases s.len(),
{
    if s.len() > 0 && is_white(s.last()) {
        trimmed_back(s.drop_last())
    } else {
        s
    }
}

/// Without the white space at either end.
pub open spec fn trimmed(s: Seq<char>) -> Seq<char> {
    trimmed_back(trimmed_front(s))
}

fn white(c: char) -> (r: bool)
    ensures
        r == is_white(c),
{
    ('\u{9}' <= c && c <= '\u{d}') || c == ' ' || c == '\u{85}' || c == '\u{a0}' || c == '\u{1680}'
        || ('\u{2000}' <= c && c <= '\u{200a}') || c == '\u{2028}' || c == '\u{2029}' || c
        == '\u{202f}' || c == '\u{205f}' || c == '\u{3000}'
}

/// Without the white space at either end.
pub fn trim<'a>(s: &'a [char]) -> (r: &'a [char])
    ensures
        r@ == trimmed(s@),
{
    let mut from: usize = 0;
    assert(s@.skip(0) =~= s@);
    while from < s.len() && white(s[from])
        invariant
            from <= s@.len(),
            trimmed_front(s@) == trimmed_front(s@.skip(from as int)),
        decreases s@.len() - from,
    {
        assert(s@.skip(from as int).drop_first() =~= s@.skip(from + 1));
        from += 1;
    }
    let mut to: usize = s.len();
    assert(s@.skip(from as int) =~= s@.subrange(from as int, to as int));
    while to > from && white(s[to - 1])
        invariant
            from <= to <= s@.len(),
            trimmed(s@) == trimmed_back(s@.subrange(from as int, to as int)),
        decreases to - from,
    {
        assert(s@.subrange(from as int, to as int).drop_last() =~= s@.subrange(
            from as int,
            to - 1,
        ));
        to -= 1;
    }
    slice_subrange(s, from, to)
}

/// What stands between the commas.
pub open spec fn split_commas(s: Seq<char>) -> Seq<Seq<char>>
    decreases s.len(),
{
    let k = find(s, ',');
    if k < 0 || k >= s.len() {
        seq![s]
    } else {
        seq![s.take(k)] + split_commas(s.skip(k + 1))
    }
}

/// Each piece trimmed, and the empty ones dropped.
pub open spec fn tidied(list: Seq<Seq<char>>) -> Seq<Seq<char>>
    decreases list.len(),
{
    if list.len() == 0 {
        seq![]
    } else if trimmed(list.last()).len() == 0 {
        tidied(list.drop_last())
    } else {
        tidied(list.drop_last()).push(trimmed(list.last()))
    }
}

/// Split at the commas.
pub fn split(s: &str) -> (r: Vec<String>)
    ensures
        texts(r@) == split_commas(s@),
{
    let chars = chars_of(s);
    let mut out: Vec<String> = Vec::new();
    let mut from: usize = 0;
    assert(s@.skip(0) =~= s@);
    assert(texts(out@) + split_commas(s@) =~= split_commas(s@));
    loop
        invariant
            from <= chars@.len(),
            chars@ == s@,
            texts(out@) + split_commas(s@.skip(from as int)) == split_commas(s@),
        decreases chars@.len() - from,
    {
        let rest = slice_subrange(&chars, from, chars.len());
        assert(rest@ =~= s@.skip(from as int));
        let ghost before = texts(out@);
        let k = find_char(rest, ',');
        if k == rest.len() {
            out.push(string_of(rest));
            assert(texts(out@) =~= before + split_commas(rest@));
            return out;
        }
        let piece = slice_subrange(rest, 0, k);
        assert(piece@ =~= rest@.take(k as int));
        out.push(string_of(piece));
        assert(rest@.skip(k + 1) =~= s@.skip(from + k + 1));
        assert(texts(out@) =~= before.push(piece@));
        assert(texts(out@) + split_commas(rest@.skip(k + 1)) =~= before + (seq![piece@]
            + split_commas(rest@.skip(k + 1))));
        from = from + k + 1;
    }
}

/// Trim each piece, and drop the empty ones.
pub fn tidy(list: &[String]) -> (r: Vec<String>)
    ensures
        texts(r@) == tidied(texts(list@)),
{
    let ghost all = texts(list@);
    let mut out: Vec<String> = Vec::new();
    let mut i: usize = 0;
    assert(texts(out@) =~= seq![]);
    while i < list.len()
        invariant
            i <= list@.len(),
            all == texts(list@),
            texts(out@) == tidied(all.take(i as int)),
        decreases list@.len() - i,
    {
        let chars = chars_of(&list[i]);
        let piece = trim(&chars);
        assert(all.take(i + 1).drop_last() =~= all.take(i as int));
        assert(all.take(i + 1).last() == list@[i as int]@);
        if piece.len() > 0 {
            let ghost before = texts(out@);
            out.push(string_of(piece));
            assert(texts(out@) =~= before.push(piece@));
        }
        i += 1;
    }
    assert(all.take(i as int) =~= all);
    out
}

// --- numbers ------------------------------------------------------------------

pub open spec fn base(hex: bool) -> int {
    if hex { 16 } else { 10 }
}

pub open spec fn is_digit(c: char, hex: bool) -> bool {
    ||| '0' <= c <= '9'
    ||| hex && 'a' <= c <= 'f'
    ||| hex && 'A' <= c <= 'F'
}

/// What a digit is worth.
pub open spec fn digit_value(c: char) -> int {
    if c <= '9' {
        c as int - '0' as int
    } else if c <= 'F' {
        c as int - 'A' as int + 10
    } else {
        c as int - 'a' as int + 10
    }
}

pub open spec fn all_digits(s: Seq<char>, hex: bool) -> bool {
    forall|i: int| 0 <= i < s.len() ==> is_digit(#[trigger] s[i], hex)
}

/// The number that a run of digits writes.
pub open spec fn number(s: Seq<char>, hex: bool) -> int
    decreases s.len(),
{
    if s.len() == 0 {
        0
    } else if hex {
        16 * number(s.drop_last(), hex) + digit_value(s.last())
    } else {
        10 * number(s.drop_last(), hex) + digit_value(s.last())
    }
}

/// An unsigned decimal of at most `max`: digits, with a `+` in front or not.
pub open spec fn uint(s: Seq<char>, max: int) -> Option<int> {
    let t = if s.len() > 0 && s[0] == '+' { s.drop_first() } else { s };
    if t.len() > 0 && all_digits(t, false) && number(t, false) <= max {
        Some(number(t, false))
    } else {
        None
    }
}

pub open spec fn digit_char(d: int) -> char {
    if d < 10 {
        ('0' as int + d) as char
    } else {
        ('a' as int + d - 10) as char
    }
}

/// The shortest way to write `n`, in lower case.
pub open spec fn numeral(n: int, hex: bool) -> Seq<char>
    decreases n,
{
    if n < base(hex) {
        seq![digit_char(n)]
    } else {
        numeral(n / base(hex), hex).push(digit_char(n % base(hex)))
    }
}

proof fn lemma_number_prefix(s: Seq<char>, hex: bool, i: int)
    requires
        all_digits(s, hex),
        0 <= i <= s.len(),
    ensures
        0 <= number(s.take(i), hex) <= number(s, hex),
    decreases s.len(),
{
    if i == s.len() {
        assert(s.take(i) =~= s);
        if i > 0 {
            lemma_number_prefix(s.drop_last(), hex, i - 1);
            assert(s.drop_last().take(i - 1) =~= s.drop_last());
        }
    } else {
        lemma_number_prefix(s.drop_last(), hex, i);
        assert(s.drop_last().take(i) =~= s.take(i));
        assert(is_digit(s[s.len() - 1], hex));
    }
}

/// What `uint` reads is never negative.
pub proof fn lemma_uint_bound(s: Seq<char>, max: int)
    ensures
        uint(s, max) matches Some(n) ==> 0 <= n <= max,
{
    let t = if s.len() > 0 && s[0] == '+' { s.drop_first() } else { s };
    if all_digits(t, false) {
        lemma_number_prefix(t, false, 0);
    }
}

/// Reading back what `numeral` wrote.
pub proof fn lemma_numeral(n: int, hex: bool)
    requires
        n >= 0,
    ensures
        numeral(n, hex).len() > 0,
        all_digits(numeral(n, hex), hex),
        number(numeral(n, hex), hex) == n,
        n > 0 ==> numeral(n, hex)[0] != '0',
    decreases n,
{
    let s = numeral(n, hex);
    if n < base(hex) {
        assert(s.drop_last() =~= seq![]);
        assert(number(s.drop_last(), hex) == 0);
        assert(digit_value(s.last()) == n);
    } else {
        let q = n / base(hex);
        let t = numeral(q, hex);
        lemma_numeral(q, hex);
        assert(s.drop_last() =~= t);
        assert(n == base(hex) * q + n % base(hex)) by (nonlinear_arith)
            requires
                q == n / base(hex),
                base(hex) > 0,
        ;
        assert(digit_value(s.last()) == n % base(hex));
        assert forall|i: int| 0 <= i < s.len() implies is_digit(#[trigger] s[i], hex) by {
            if i < t.len() {
                assert(s[i] == t[i]);
            }
        }
        assert(s[0] == t[0]);
    }
}

/// How long a numeral can be.
pub proof fn lemma_numeral_len(n: int, hex: bool)
    requires
        n >= 0,
    ensures
        hex && n < 65536 ==> numeral(n, hex).len() <= 4,
        !hex && n < 1000 ==> numeral(n, hex).len() <= 3,
        n == 0 ==> numeral(n, hex).len() == 1,
{
    reveal_with_fuel(numeral, 5);
}

/// A numeral is read back as the number it writes.
pub proof fn lemma_uint_of_numeral(n: int, max: int)
    requires
        0 <= n <= max,
    ensures
        uint(numeral(n, false), max) == Some(n),
{
    lemma_numeral(n, false);
    assert(is_digit(numeral(n, false)[0], false));
}

fn digit_of(c: char, hex: bool) -> (r: Option<u32>)
    ensures
        r is Some <==> is_digit(c, hex),
        r matches Some(d) ==> d == digit_value(c) && d < base(hex),
{
    if '0' <= c && c <= '9' {
        Some(c as u32 - '0' as u32)
    } else if hex && 'a' <= c && c <= 'f' {
        Some(c as u32 - 'a' as u32 + 10)
    } else if hex && 'A' <= c && c <= 'F' {
        Some(c as u32 - 'A' as u32 + 10)
    } else {
        None
    }
}

/// The number that `s` writes, where it is all digits, not empty, and no more
/// than `max`.
pub fn read_digits(s: &[char], hex: bool, max: u32) -> (r: Option<u32>)
    ensures
        r is Some <==> s@.len() > 0 && all_digits(s@, hex) && number(s@, hex) <= max,
        r matches Some(n) ==> n == number(s@, hex),
{
    if s.len() == 0 {
        return None;
    }
    let mut acc: u64 = 0;
    let mut i: usize = 0;
    while i < s.len()
        invariant
            i <= s@.len(),
            acc <= max,
            all_digits(s@.take(i as int), hex),
            acc == number(s@.take(i as int), hex),
        decreases s@.len() - i,
    {
        let d = match digit_of(s[i], hex) {
            Some(d) => d,
            None => {
                assert(!is_digit(s@[i as int], hex));
                return None;
            },
        };
        let b: u64 = if hex { 16 } else { 10 };
        assert(s@.take(i + 1).drop_last() =~= s@.take(i as int));
        assert(b * acc + d <= 16 * u32::MAX + 16) by (nonlinear_arith)
            requires
                b <= 16,
                acc <= u32::MAX,
                d < 16,
        ;
        acc = b * acc + d as u64;
        assert(acc == number(s@.take(i + 1), hex));
        assert forall|j: int| 0 <= j < i + 1 implies is_digit(#[trigger] s@.take(i + 1)[j], hex) by {
            if j < i {
                assert(s@.take(i + 1)[j] == s@.take(i as int)[j]);
            }
        }
        if acc > max as u64 {
            proof {
                if all_digits(s@, hex) {
                    lemma_number_prefix(s@, hex, i + 1);
                }
            }
            return None;
        }
        i += 1;
    }
    assert(s@.take(s@.len() as int) =~= s@);
    Some(acc as u32)
}

/// Read an unsigned decimal of at most `max`.
pub fn read_uint(s: &[char], max: u32) -> (r: Option<u32>)
    ensures
        r is Some <==> uint(s@, max as int) is Some,
        r matches Some(n) ==> uint(s@, max as int) == Some(n as int),
{
    if s.len() > 0 && s[0] == '+' {
        let t = slice_subrange(s, 1, s.len());
        assert(t@ =~= s@.drop_first());
        read_digits(t, false, max)
    } else {
        read_digits(s, false, max)
    }
}

fn char_of_digit(d: u32) -> (r: char)
    requires
        d < 16,
    ensures
        r == digit_char(d as int),
{
    if d < 10 {
        ('0' as u8 + d as u8) as char
    } else {
        ('a' as u8 + (d as u8 - 10)) as char
    }
}

/// Write a number at the end of `out`.
pub fn push_number(out: &mut String, n: u32, hex: bool)
    ensures
        final(out)@ == old(out)@ + numeral(n as int, hex),
    decreases n,
{
    let b: u32 = if hex { 16 } else { 10 };
    if n >= b {
        push_number(out, n / b, hex);
    }
    out.push(char_of_digit(n % b));
    assert(out@ =~= old(out)@ + numeral(n as int, hex));
}

// --- laws ---------------------------------------------------------------------

/// A decimal is read digit by digit: one digit is worth what it says, and one more
/// makes ten times as much of those before it. Above `max` nothing is read.
pub proof fn law_decimals_are_read_by_their_digits(s: Seq<char>, d: int, max: int)
    requires
        0 <= d <= 9,
        max >= 0,
    ensures
        uint(seq![('0' as int + d) as char], max) == if d <= max {
            Some(d)
        } else {
            None
        },
        uint(s, max) matches Some(n) ==> uint(s.push(('0' as int + d) as char), max) == if 10 * n
            + d <= max {
            Some(10 * n + d)
        } else {
            None
        },
{
    let c = ('0' as int + d) as char;
    let one = seq![c];
    assert(is_digit(c, false));
    assert(one.drop_last() =~= seq![]);
    assert(number(one.drop_last(), false) == 0);
    assert(number(one, false) == d);
    assert(all_digits(one, false));
    if uint(s, max) is Some {
        let more = s.push(c);
        let t = if s[0] == '+' { s.drop_first() } else { s };
        let u = if s[0] == '+' { more.drop_first() } else { more };
        assert(more[0] == s[0]);
        assert(u =~= t.push(c));
        assert(u.drop_last() =~= t);
        assert forall|i: int| 0 <= i < u.len() implies is_digit(#[trigger] u[i], false) by {
            if i < t.len() {
                assert(is_digit(t[i], false));
            }
        }
    }
}

/// A lower `max` only refuses more, and exactly what is above it.
pub proof fn law_decimals_above_the_limit_are_refused(s: Seq<char>, low: int, high: int)
    requires
        0 <= low <= high,
        uint(s, high) is Some,
    ensures
        uint(s, low) == if uint(s, high)->Some_0 <= low {
            uint(s, high)
        } else {
            None
        },
{
}

/// Nothing but digits is read as a decimal, save one `+` in front, which changes
/// nothing.
pub proof fn law_only_digits_are_decimals(s: Seq<char>, max: int)
    ensures
        uint(s, max) is Some ==> s.len() > 0 && forall|i: int|
            0 <= i < s.len() ==> '0' <= #[trigger] s[i] <= '9' || (i == 0 && s[0] == '+' && s.len()
                > 1),
        s.len() > 0 && s[0] != '+' ==> uint(seq!['+'] + s, max) == uint(s, max),
{
    if uint(s, max) is Some {
        let t = if s[0] == '+' { s.drop_first() } else { s };
        assert forall|i: int| 0 <= i < s.len() implies '0' <= #[trigger] s[i] <= '9' || (i == 0
            && s[0] == '+' && s.len() > 1) by {
            if s[0] == '+' {
                if i > 0 {
                    assert(is_digit(t[i - 1], false));
                }
            } else {
                assert(is_digit(t[i], false));
            }
        }
    }
    assert((seq!['+'] + s).drop_first() =~= s);
}

/// A number is written in digits without a leading zero, and read back as itself.
pub proof fn law_numerals_read_back(n: int, max: int)
    requires
        0 <= n <= max,
    ensures
        uint(numeral(n, false), max) == Some(n),
        forall|i: int| 0 <= i < numeral(n, false).len() ==> '0' <= #[trigger] numeral(n, false)[i]
            <= '9',
        numeral(n, false).len() > 1 ==> numeral(n, false)[0] != '0',
{
    lemma_uint_of_numeral(n, max);
    lemma_numeral(n, false);
    lemma_numeral_len(n, false);
    assert forall|i: int| 0 <= i < numeral(n, false).len() implies '0' <= #[trigger] numeral(
        n,
        false,
    )[i] <= '9' by {
        assert(is_digit(numeral(n, false)[i], false));
    }
}

/// Blanks, tabs and line ends are white, and no other ASCII character is; above ASCII it
/// is the spaces of Unicode.
pub proof fn law_what_is_white()
    ensures
        is_white(' '),
        is_white('\t'),
        is_white('\n'),
        is_white('\r'),
        forall|c: char| '!' <= c <= '~' ==> !#[trigger] is_white(c),
        forall|c: char|
            c as int > 0x7f && #[trigger] is_white(c) ==> {
                ||| c as int == 0x85
                ||| c as int == 0xa0
                ||| c as int == 0x1680
                ||| c as int / 0x10 == 0x200 && c as int % 0x10 <= 10
                ||| c as int == 0x2028
                ||| c as int == 0x2029
                ||| c as int == 0x202f
                ||| c as int == 0x205f
                ||| c as int == 0x3000
            },
        forall|n: int|
            0x2000 <= n <= 0x200a || n == 0x85 || n == 0xa0 || n == 0x1680 || n == 0x2028 || n
                == 0x2029 || n == 0x202f || n == 0x205f || n == 0x3000 || n == 0xb || n == 0xc
                ==> is_white(#[trigger] (n as char)),
        forall|c: char|
            (c as int) < 9 || 13 < c as int && (c as int) < 32 || c as int == 0x7f
                ==> !#[trigger] is_white(c),
{
}

/// Trimming takes the white space at both ends away, and nothing else.
pub proof fn law_trimming_keeps_the_core(front: Seq<char>, core: Seq<char>, back: Seq<char>)
    requires
        forall|i: int| 0 <= i < front.len() ==> is_white(#[trigger] front[i]),
        forall|i: int| 0 <= i < back.len() ==> is_white(#[trigger] back[i]),
        core.len() > 0 ==> !is_white(core[0]) && !is_white(core.last()),
    ensures
        trimmed(front + core + back) == core,
    decreases front.len() + back.len(),
{
    let all = front + core + back;
    if front.len() > 0 {
        let fewer = front.drop_first();
        assert(is_white(front[0]));
        assert(all[0] == front[0]);
        assert(all.drop_first() =~= fewer + core + back);
        assert forall|i: int| 0 <= i < fewer.len() implies is_white(#[trigger] fewer[i]) by {
            assert(front[i + 1] == fewer[i]);
        }
        law_trimming_keeps_the_core(fewer, core, back);
    } else if core.len() == 0 {
        assert(all =~= back);
        if back.len() > 0 {
            let fewer = back.drop_first();
            assert(is_white(back[0]));
            assert(all.drop_first() =~= front + core + fewer);
            assert forall|i: int| 0 <= i < fewer.len() implies is_white(#[trigger] fewer[i]) by {
                assert(back[i + 1] == fewer[i]);
            }
            law_trimming_keeps_the_core(front, core, fewer);
        } else {
            assert(all =~= core);
        }
    } else {
        assert(all[0] == core[0]);
        assert(trimmed_front(all) == all);
        if back.len() > 0 {
            let fewer = back.drop_last();
            assert(is_white(back[back.len() - 1]));
            assert(all.last() == back.last());
            assert(all.drop_last() =~= front + core + fewer);
            assert forall|i: int| 0 <= i < fewer.len() implies is_white(#[trigger] fewer[i]) by {
                assert(back[i] == fewer[i]);
            }
            law_trimming_keeps_the_core(front, core, fewer);
            assert((front + core + fewer)[0] == core[0]);
            assert(trimmed_front(front + core + fewer) == front + core + fewer);
        } else {
            assert(all =~= core);
        }
    }
}

/// Tidying goes piece by piece: each is trimmed, and is gone where nothing is left.
pub proof fn law_tidying_goes_piece_by_piece(a: Seq<Seq<char>>, piece: Seq<char>, b: Seq<Seq<char>>)
    ensures
        tidied(a + b) == tidied(a) + tidied(b),
        tidied(seq![piece]) == if trimmed(piece).len() > 0 {
            seq![trimmed(piece)]
        } else {
            seq![]
        },
    decreases b.len(),
{
    let one = seq![piece];
    assert(one.drop_last() =~= seq![]);
    assert(tidied(one.drop_last()) =~= seq![]);
    assert(tidied(one) =~= if trimmed(piece).len() > 0 {
        seq![trimmed(piece)]
    } else {
        seq![]
    });
    if b.len() == 0 {
        assert(a + b =~= a);
        assert(tidied(a) + tidied(b) =~= tidied(a));
    } else {
        law_tidying_goes_piece_by_piece(a, piece, b.drop_last());
        assert((a + b).drop_last() =~= a + b.drop_last());
        assert((a + b).last() == b.last());
        assert(tidied(a + b) =~= tidied(a) + tidied(b));
    }
}

/// Splitting cuts at each comma and nowhere else.
pub proof fn law_splitting_cuts_at_commas(piece: Seq<char>, rest: Seq<char>)
    requires
        forall|i: int| 0 <= i < piece.len() ==> #[trigger] piece[i] != ',',
    ensures
        split_commas(piece) == seq![piece],
        split_commas(piece + seq![','] + rest) == seq![piece] + split_commas(rest),
{
    lemma_find_is(piece, ',', piece.len() as int);
    let all = piece + seq![','] + rest;
    assert forall|i: int| 0 <= i < piece.len() implies all[i] != ',' by {
        assert(all[i] == piece[i]);
    }
    assert(all[piece.len() as int] == ',');
    lemma_find_is(all, ',', piece.len() as int);
    assert(all.take(piece.len() as int) =~= piece);
    assert(all.skip(piece.len() as int + 1) =~= rest);
}

/// A run of decimal digits without a leading zero is the numeral of what it writes: no
/// number has two.
pub proof fn law_numerals_are_unique(s: Seq<char>)
    requires
        s.len() > 0,
        forall|i: int| 0 <= i < s.len() ==> '0' <= #[trigger] s[i] <= '9',
        s.len() > 1 ==> s[0] != '0',
    ensures
        number(s, false) >= 0,
        s == numeral(number(s, false), false),
    decreases s.len(),
{
    let head = s.drop_last();
    let d = digit_value(s.last());
    assert('0' <= s[s.len() - 1] <= '9');
    assert(0 <= d <= 9);
    assert(digit_char(d) == s.last());
    if s.len() == 1 {
        assert(head =~= seq![]);
        assert(number(head, false) == 0);
        assert(s =~= seq![s.last()]);
    } else {
        assert(head[0] == s[0]);
        assert forall|i: int| 0 <= i < head.len() implies '0' <= #[trigger] head[i] <= '9' by {
            assert(head[i] == s[i]);
        }
        law_numerals_are_unique(head);
        let n = number(head, false);
        lemma_numeral(n, false);
        if n == 0 {
            assert(numeral(0, false) =~= seq!['0']);
            assert(head[0] == '0');
        }
        assert(number(s, false) == 10 * n + d);
        assert((10 * n + d) / 10 == n && (10 * n + d) % 10 == d);
        assert(s =~= head.push(s.last()));
    }
}

/// A hexadecimal numeral is in small letters, without a leading zero.
pub proof fn law_hex_numerals_are_small(n: int)
    requires
        n >= 0,
    ensures
        numeral(n, true).len() > 0,
        forall|i: int|
            0 <= i < numeral(n, true).len() ==> '0' <= #[trigger] numeral(n, true)[i] <= '9' || 'a'
                <= numeral(n, true)[i] <= 'f',
        numeral(n, true).len() > 1 ==> numeral(n, true)[0] != '0',
    decreases n,
{
    lemma_numeral(n, true);
    if n >= 16 {
        law_hex_numerals_are_small(n / 16);
        let few = numeral(n / 16, true);
        let all = numeral(n, true);
        assert(all == few.push(digit_char(n % 16)));
        assert forall|i: int| 0 <= i < all.len() implies '0' <= #[trigger] all[i] <= '9' || 'a'
            <= all[i] <= 'f' by {
            if i < few.len() {
                assert(all[i] == few[i]);
            }
        }
    }
}

} // verus!
