//! Putting things in order: octet strings, and a merge sort over anything that
//! says which of two values comes first.

use crate::text::{same, texts};
use vstd::multiset::Multiset;
use vstd::prelude::*;
use vstd::utf8::{encode_utf8, encode_utf8_decode_utf8};

verus! {

/// `a` comes no later than `b` in the order of a dictionary of octets.
pub open spec fn lex(a: Seq<u8>, b: Seq<u8>) -> bool
    decreases a.len(),
{
    if a.len() == 0 {
        true
    } else if b.len() == 0 {
        false
    } else if a[0] != b[0] {
        a[0] < b[0]
    } else {
        lex(a.drop_first(), b.drop_first())
    }
}

pub proof fn lemma_lex_total(a: Seq<u8>, b: Seq<u8>)
    ensures
        lex(a, b) || lex(b, a),
    decreases a.len(),
{
    if a.len() > 0 && b.len() > 0 && a[0] == b[0] {
        lemma_lex_total(a.drop_first(), b.drop_first());
    }
}

pub proof fn lemma_lex_transitive(a: Seq<u8>, b: Seq<u8>, c: Seq<u8>)
    requires
        lex(a, b),
        lex(b, c),
    ensures
        lex(a, c),
    decreases a.len(),
{
    if a.len() > 0 && b.len() > 0 && c.len() > 0 && a[0] == b[0] && b[0] == c[0] {
        lemma_lex_transitive(a.drop_first(), b.drop_first(), c.drop_first());
    }
}

pub proof fn lemma_lex_antisymmetric(a: Seq<u8>, b: Seq<u8>)
    requires
        lex(a, b),
        lex(b, a),
    ensures
        a == b,
    decreases a.len(),
{
    if a.len() > 0 && b.len() > 0 {
        lemma_lex_antisymmetric(a.drop_first(), b.drop_first());
        assert(a =~= seq![a[0]] + a.drop_first());
        assert(b =~= seq![b[0]] + b.drop_first());
    } else {
        assert(a =~= b);
    }
}

/// Whether `a` comes no later than `b`.
pub fn octets_in_order(a: &[u8], b: &[u8]) -> (r: bool)
    ensures
        r == lex(a@, b@),
{
    let mut i: usize = 0;
    assert(a@.skip(0) =~= a@);
    assert(b@.skip(0) =~= b@);
    while i < a.len() && i < b.len()
        invariant
            i <= a@.len(),
            i <= b@.len(),
            lex(a@, b@) == lex(a@.skip(i as int), b@.skip(i as int)),
        decreases a@.len() - i,
    {
        if a[i] != b[i] {
            return a[i] < b[i];
        }
        assert(a@.skip(i as int).drop_first() =~= a@.skip(i + 1));
        assert(b@.skip(i as int).drop_first() =~= b@.skip(i + 1));
        i += 1;
    }
    i == a.len()
}

/// Whether two octet strings are the same.
pub fn octets_equal(a: &[u8], b: &[u8]) -> (r: bool)
    ensures
        r == (a@ == b@),
{
    if a.len() != b.len() {
        return false;
    }
    let mut i: usize = 0;
    while i < a.len()
        invariant
            i <= a@.len(),
            a@.len() == b@.len(),
            forall|j: int| 0 <= j < i ==> a@[j] == b@[j],
        decreases a@.len() - i,
    {
        if a[i] != b[i] {
            return false;
        }
        i += 1;
    }
    assert(a@ =~= b@);
    true
}

/// Values with a total preorder.
pub trait Ordered: Sized {
    /// `self` may stand before `other`.
    spec fn before(&self, other: &Self) -> bool;

    proof fn lemma_total(a: &Self, b: &Self)
        ensures
            a.before(b) || b.before(a),
    ;

    proof fn lemma_transitive(a: &Self, b: &Self, c: &Self)
        requires
            a.before(b),
            b.before(c),
        ensures
            a.before(c),
    ;

    fn is_before(&self, other: &Self) -> (r: bool)
        ensures
            r == self.before(other),
    ;
}

pub open spec fn in_order<T: Ordered>(s: Seq<T>) -> bool {
    forall|i: int, j: int|
        #![trigger s[i], s[j]]
        0 <= i < j < s.len() ==> s[i].before(&s[j])
}

/// The values of `down`, last one first.
fn reversed<T>(down: Vec<T>) -> (up: Vec<T>)
    ensures
        up@ == down@.reverse(),
{
    let mut rest = down;
    let mut up: Vec<T> = Vec::new();
    while rest.len() > 0
        invariant
            up@ + rest@.reverse() == down@.reverse(),
        decreases rest@.len(),
    {
        let ghost before = rest@;
        let x = rest.pop().unwrap();
        up.push(x);
        assert(before.reverse() =~= seq![before.last()] + rest@.reverse());
        assert(up@ + rest@.reverse() =~= down@.reverse());
    }
    assert(rest@.reverse() =~= seq![]);
    assert(up@ =~= down@.reverse());
    up
}

/// Taking the last value of a sequence away takes it out of the multiset.
proof fn lemma_last_out<T>(s: Seq<T>)
    requires
        s.len() > 0,
    ensures
        s.to_multiset() == s.drop_last().to_multiset().insert(s.last()),
{
    broadcast use vstd::seq_lib::group_to_multiset_ensures;

    assert(s =~= s.drop_last().push(s.last()));
}

/// Two runs in order, as one.
fn merge<T: Ordered>(left: Vec<T>, right: Vec<T>) -> (r: Vec<T>)
    requires
        in_order(left@),
        in_order(right@),
    ensures
        in_order(r@),
        r@.to_multiset() == left@.to_multiset().add(right@.to_multiset()),
{
    broadcast use vstd::seq_lib::group_to_multiset_ensures;

    let ghost all = left@.to_multiset().add(right@.to_multiset());
    let mut a = left;
    let mut b = right;
    // What has been taken so far, the last of all first.
    let mut down: Vec<T> = Vec::new();
    while a.len() > 0 || b.len() > 0
        invariant
            in_order(a@),
            in_order(b@),
            in_order(down@.reverse()),
            forall|i: int, j: int|
                #![trigger a@[i], down@[j]]
                0 <= i < a@.len() && 0 <= j < down@.len() ==> a@[i].before(&down@[j]),
            forall|i: int, j: int|
                #![trigger b@[i], down@[j]]
                0 <= i < b@.len() && 0 <= j < down@.len() ==> b@[i].before(&down@[j]),
            all =~= a@.to_multiset().add(b@.to_multiset()).add(down@.to_multiset()),
        decreases a@.len() + b@.len(),
    {
        let from_right = if b.len() == 0 {
            false
        } else if a.len() == 0 {
            true
        } else {
            a[a.len() - 1].is_before(&b[b.len() - 1])
        };
        let ghost a0 = a@;
        let ghost b0 = b@;
        let ghost d0 = down@;
        proof {
            if a0.len() > 0 {
                lemma_last_out(a0);
            }
            if b0.len() > 0 {
                lemma_last_out(b0);
            }
            if a0.len() > 0 && b0.len() > 0 {
                T::lemma_total(&a0.last(), &b0.last());
            }
        }
        let x = if from_right {
            b.pop().unwrap()
        } else {
            a.pop().unwrap()
        };
        down.push(x);
        proof {
            assert(down@.reverse() =~= seq![x] + d0.reverse());
            assert forall|i: int| 0 <= i < a@.len() implies (#[trigger] a@[i]).before(&x) by {
                assert(a@[i] == a0[i]);
                if from_right && i < a0.len() - 1 {
                    T::lemma_transitive(&a0[i], &a0.last(), &x);
                }
            }
            assert forall|i: int| 0 <= i < b@.len() implies (#[trigger] b@[i]).before(&x) by {
                assert(b@[i] == b0[i]);
                if !from_right && i < b0.len() - 1 {
                    T::lemma_transitive(&b0[i], &b0.last(), &x);
                }
            }
            assert forall|j: int| 0 <= j < d0.len() implies #[trigger] x.before(&d0[j]) by {
                if from_right {
                    assert(b0[b0.len() - 1].before(&d0[j]));
                } else {
                    assert(a0[a0.len() - 1].before(&d0[j]));
                }
            }
            let rev = down@.reverse();
            assert forall|i: int, j: int|
                #![trigger rev[i], rev[j]]
                0 <= i < j < rev.len() implies rev[i].before(
                &rev[j],
            ) by {
                let old_rev = d0.reverse();
                assert(rev[j] == old_rev[j - 1]);
                if i > 0 {
                    assert(rev[i] == old_rev[i - 1]);
                } else {
                    assert(rev[j] == d0[d0.len() - j]);
                }
            }
            lemma_last_out(down@);
            assert(down@.drop_last() =~= d0);
        }
    }
    proof {
        down@.lemma_reverse_to_multiset();
        assert(a@.to_multiset() =~= Multiset::empty());
        assert(b@.to_multiset() =~= Multiset::empty());
        assert(all =~= down@.to_multiset());
    }
    reversed(down)
}

/// The same values, in order.
pub fn sorted<T: Ordered>(v: Vec<T>) -> (r: Vec<T>)
    ensures
        in_order(r@),
        r@.to_multiset() == v@.to_multiset(),
    decreases v@.len(),
{
    if v.len() < 2 {
        return v;
    }
    let mut left = v;
    let half = left.len() / 2;
    let right = left.split_off(half);
    proof {
        assert(v@ =~= left@ + right@);
        vstd::seq_lib::lemma_multiset_commutative(left@, right@);
    }
    merge(sorted(left), sorted(right))
}

/// Sorting neither adds nor drops a value.
pub proof fn lemma_same_values<T>(a: Seq<T>, b: Seq<T>)
    requires
        a.to_multiset() == b.to_multiset(),
    ensures
        a.len() == b.len(),
        forall|x: T| a.contains(x) <==> b.contains(x),
{
    broadcast use vstd::seq_lib::group_to_multiset_ensures;

    vstd::seq_lib::to_multiset_len(a);
    vstd::seq_lib::to_multiset_len(b);
    assert forall|x: T| a.contains(x) <==> b.contains(x) by {
        assert(a.contains(x) <==> a.to_multiset().count(x) > 0);
        assert(b.contains(x) <==> b.to_multiset().count(x) > 0);
    }
}

// --- strings ------------------------------------------------------------------

impl Ordered for String {
    open spec fn before(&self, other: &Self) -> bool {
        lex(encode_utf8(self@), encode_utf8(other@))
    }

    proof fn lemma_total(a: &Self, b: &Self) {
        lemma_lex_total(encode_utf8(a@), encode_utf8(b@));
    }

    proof fn lemma_transitive(a: &Self, b: &Self, c: &Self) {
        lemma_lex_transitive(encode_utf8(a@), encode_utf8(b@), encode_utf8(c@));
    }

    fn is_before(&self, other: &Self) -> (r: bool) {
        octets_in_order(self.as_str().as_bytes(), other.as_str().as_bytes())
    }
}

/// In order, and none twice.
pub open spec fn ascending(s: Seq<String>) -> bool {
    forall|i: int, j: int|
        #![trigger s[i], s[j]]
        0 <= i < j < s.len() ==> s[i].before(&s[j]) && s[i]@ != s[j]@
}

/// The same strings in order, each once.
pub fn sorted_once(v: Vec<String>) -> (r: Vec<String>)
    ensures
        ascending(r@),
        forall|m: Seq<char>| texts(r@).contains(m) <==> #[trigger] texts(v@).contains(m),
{
    let ghost given = v@;
    let all = sorted(v);
    let mut out: Vec<String> = Vec::new();
    let mut i: usize = 0;
    while i < all.len()
        invariant
            i <= all@.len(),
            in_order(all@),
            ascending(out@),
            i == 0 ==> out@.len() == 0,
            i > 0 ==> out@.len() > 0 && out@.last()@ == all@[i - 1]@,
            forall|k: int| 0 <= k < out@.len() ==> texts(all@).contains(#[trigger] out@[k]@),
            forall|k: int| 0 <= k < i ==> texts(out@).contains(#[trigger] all@[k]@),
        decreases all@.len() - i,
    {
        let ghost before = out@;
        let n = out.len();
        assert(texts(all@)[i as int] == all@[i as int]@);
        if n > 0 && same(&out[n - 1], &all[i]) {
            assert(texts(out@)[n - 1] == all@[i as int]@);
        } else {
            out.push(all[i].clone());
            proof {
                let x = encode_utf8(all@[i as int]@);
                assert forall|j: int| 0 <= j < n implies (#[trigger] before[j]).before(
                    &all@[i as int],
                ) && before[j]@ != all@[i as int]@ by {
                    let last = before[n - 1];
                    assert(all@[i - 1].before(&all@[i as int]));
                    if j < n - 1 {
                        assert(before[j].before(&last));
                        lemma_lex_transitive(encode_utf8(before[j]@), encode_utf8(last@), x);
                        if before[j]@ == all@[i as int]@ {
                            lemma_lex_antisymmetric(encode_utf8(last@), x);
                            encode_utf8_decode_utf8(last@);
                            encode_utf8_decode_utf8(all@[i as int]@);
                        }
                    }
                }
                assert forall|k: int| 0 <= k < i + 1 implies texts(out@).contains(
                    #[trigger] all@[k]@,
                ) by {
                    if k < i {
                        let j = choose|j: int|
                            0 <= j < texts(before).len() && texts(before)[j] == all@[k]@;
                        assert(texts(out@)[j] == all@[k]@);
                    } else {
                        assert(texts(out@)[n as int] == all@[k]@);
                    }
                }
            }
        }
        i += 1;
    }
    proof {
        lemma_same_values(given, all@);
        assert forall|m: Seq<char>| texts(out@).contains(m) <==> #[trigger] texts(
            given,
        ).contains(m) by {
            if texts(out@).contains(m) {
                let k = choose|k: int| 0 <= k < texts(out@).len() && texts(out@)[k] == m;
                assert(out@[k]@ == m);
                let j = choose|j: int| 0 <= j < texts(all@).len() && texts(all@)[j] == m;
                assert(all@.contains(all@[j]));
                assert(given.contains(all@[j]));
                let x = choose|x: int| 0 <= x < given.len() && given[x] == all@[j];
                assert(texts(given)[x] == m);
            }
            if texts(given).contains(m) {
                let x = choose|x: int| 0 <= x < texts(given).len() && texts(given)[x] == m;
                assert(given.contains(given[x]));
                assert(all@.contains(given[x]));
                let j = choose|j: int| 0 <= j < all@.len() && all@[j] == given[x];
                assert(all@[j]@ == m);
            }
        }
    }
    out
}

// --- laws ---------------------------------------------------------------------

/// Octet strings stand as in a dictionary: a start of another comes before it, and else
/// the first octet that differs decides.
pub proof fn law_first_difference_decides(p: Seq<u8>, a: Seq<u8>, b: Seq<u8>, x: u8, y: u8)
    ensures
        lex(p, p + a),
        a.len() > 0 ==> !lex(p + a, p),
        x < y ==> lex(p + seq![x] + a, p + seq![y] + b) && !lex(
            p + seq![y] + b,
            p + seq![x] + a,
        ),
    decreases p.len(),
{
    let s = p + seq![x] + a;
    let t = p + seq![y] + b;
    if p.len() > 0 {
        let q = p.drop_first();
        law_first_difference_decides(q, a, b, x, y);
        assert((p + a).drop_first() =~= q + a);
        assert(s.drop_first() =~= q + seq![x] + a);
        assert(t.drop_first() =~= q + seq![y] + b);
        assert((p + a)[0] == p[0] && s[0] == p[0] && t[0] == p[0]);
    } else {
        assert(s[0] == x && t[0] == y);
    }
}

/// Strings that ascend are in the order of their octets, and none is there twice.
pub proof fn law_ascending_is_dictionary_order(s: Seq<String>, i: int, j: int)
    requires
        ascending(s),
        0 <= i < j < s.len(),
    ensures
        lex(encode_utf8(s[i]@), encode_utf8(s[j]@)),
        s[i]@ != s[j]@,
{
    let (a, b) = (s[i], s[j]);
}

} // verus!
