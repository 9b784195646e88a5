//! Which scope claims a server name: exact names first, then wildcards, longest
//! suffix first.

use crate::cidr::CidrSet;
use crate::text::{chars_of, string_of};
use vstd::prelude::*;
use vstd::slice::slice_subrange;
use vstd::utf8::{encode_scalar, encode_utf8};

verus! {

// --- case folding -------------------------------------------------------------

pub open spec fn lower_char(c: char) -> char {
    if 'A' <= c <= 'Z' {
        (c as int + 32) as char
    } else {
        c
    }
}

/// ASCII capitals made small, and the rest left alone.
pub open spec fn lowered(s: Seq<char>) -> Seq<char> {
    s.map_values(|c: char| lower_char(c))
}

pub open spec fn lower_byte(b: u8) -> u8 {
    if 'A' as u8 <= b <= 'Z' as u8 {
        (b + 32) as u8
    } else {
        b
    }
}

/// The same, octet by octet.
pub open spec fn folded(s: Seq<u8>) -> Seq<u8> {
    s.map_values(|b: u8| lower_byte(b))
}

fn lower(text: &[char]) -> (r: Vec<char>)
    ensures
        r@ == lowered(text@),
{
    let mut out: Vec<char> = Vec::new();
    let mut i: usize = 0;
    while i < text.len()
        invariant
            i <= text@.len(),
            out@.len() == i,
            forall|j: int| 0 <= j < i ==> #[trigger] out@[j] == lower_char(text@[j]),
        decreases text@.len() - i,
    {
        let c = text[i];
        if 'A' <= c && c <= 'Z' {
            let small = (c as u8 + 32) as char;
            out.push(small);
        } else {
            out.push(c);
        }
        i += 1;
    }
    assert(out@ =~= lowered(text@));
    out
}

fn small(b: u8) -> (r: u8)
    ensures
        r == lower_byte(b),
{
    if 'A' as u8 <= b && b <= 'Z' as u8 {
        b + 32
    } else {
        b
    }
}

// --- patterns -----------------------------------------------------------------

/// One `sni` entry, lowercased; `*.foo.com` is `Suffix("foo.com")`.
#[derive(Debug, Clone, PartialEq, Eq)]
pub enum Pattern {
    Exact(String),
    Suffix(String),
}

pub enum PatternView {
    Exact(Seq<char>),
    Suffix(Seq<char>),
}

impl View for Pattern {
    type V = PatternView;

    open spec fn view(&self) -> PatternView {
        match self {
            Pattern::Exact(s) => PatternView::Exact(s@),
            Pattern::Suffix(s) => PatternView::Suffix(s@),
        }
    }
}

/// Only a whole leading `*.` is a wildcard; `foo.*` etc. stay exact and match no
/// real name.
pub open spec fn pattern_of(text: Seq<char>) -> PatternView {
    let s = lowered(text);
    if s.len() > 2 && s[0] == '*' && s[1] == '.' {
        PatternView::Suffix(s.skip(2))
    } else {
        PatternView::Exact(s)
    }
}

impl Pattern {
    pub fn parse(text: &str) -> (r: Pattern)
        ensures
            r@ == pattern_of(text@),
    {
        let chars = chars_of(text);
        let s = lower(&chars);
        if s.len() > 2 && s[0] == '*' && s[1] == '.' {
            let rest = slice_subrange(&s, 2, s.len());
            assert(rest@ =~= s@.skip(2));
            Pattern::Suffix(string_of(rest))
        } else {
            Pattern::Exact(string_of(&s))
        }
    }
}

pub open spec fn patterns(names: Seq<Pattern>) -> Seq<PatternView> {
    names.map_values(|p: Pattern| p@)
}

/// Several hostnames sharing one allowlist.
#[derive(Debug)]
pub struct Scope {
    pub names: Vec<Pattern>,
    pub allow: CidrSet,
}

// --- matching -----------------------------------------------------------------

/// The pattern's text, octet by octet, is the name with its capitals made small.
pub open spec fn same_name(pat: Seq<char>, name: Seq<u8>) -> bool {
    encode_utf8(pat) == folded(name)
}

pub open spec fn is_exactly(p: PatternView, sni: Seq<u8>) -> bool {
    p matches PatternView::Exact(e) && same_name(e, sni)
}

pub open spec fn is_wildcard_over(p: PatternView, rest: Seq<u8>) -> bool {
    p matches PatternView::Suffix(x) && same_name(x, rest)
}

pub open spec fn names_exactly(scope: Scope, sni: Seq<u8>) -> bool {
    exists|i: int| 0 <= i < scope.names@.len() && is_exactly((#[trigger] scope.names@[i])@, sni)
}

pub open spec fn names_suffix(scope: Scope, rest: Seq<u8>) -> bool {
    exists|i: int|
        0 <= i < scope.names@.len() && is_wildcard_over((#[trigger] scope.names@[i])@, rest)
}

/// The first scope that names the server exactly.
pub open spec fn first_exact(scopes: Seq<Scope>, sni: Seq<u8>) -> Option<int>
    decreases scopes.len(),
{
    if scopes.len() == 0 {
        None
    } else {
        match first_exact(scopes.drop_last(), sni) {
            Some(i) => Some(i),
            None => if names_exactly(scopes.last(), sni) {
                Some(scopes.len() - 1)
            } else {
                None
            },
        }
    }
}

/// The first scope with a wildcard over `rest`.
pub open spec fn first_suffix(scopes: Seq<Scope>, rest: Seq<u8>) -> Option<int>
    decreases scopes.len(),
{
    if scopes.len() == 0 {
        None
    } else {
        match first_suffix(scopes.drop_last(), rest) {
            Some(i) => Some(i),
            None => if names_suffix(scopes.last(), rest) {
                Some(scopes.len() - 1)
            } else {
                None
            },
        }
    }
}

/// Number of octets before the first dot.
pub open spec fn label_len(s: Seq<u8>) -> int
    decreases s.len(),
{
    if s.len() == 0 || s[0] == 0x2e {
        0
    } else {
        1 + label_len(s.drop_first())
    }
}

pub proof fn lemma_label_len(s: Seq<u8>)
    ensures
        0 <= label_len(s) <= s.len(),
        forall|i: int| 0 <= i < label_len(s) ==> s[i] != 0x2e,
        label_len(s) < s.len() ==> s[label_len(s)] == 0x2e,
    decreases s.len(),
{
    if s.len() != 0 && s[0] != 0x2e {
        let t = s.drop_first();
        lemma_label_len(t);
        assert forall|i: int| 0 <= i < label_len(s) implies s[i] != 0x2e by {
            if i > 0 {
                assert(s[i] == t[i - 1]);
            }
        }
    }
}

/// The scope with the longest wildcard that the name ends in, after at least one
/// label of its own.
pub open spec fn wildcard_scope(scopes: Seq<Scope>, name: Seq<u8>) -> Option<int>
    decreases name.len(),
{
    let k = label_len(name);
    if k < 0 || k >= name.len() {
        None
    } else {
        let rest = name.skip(k + 1);
        match first_suffix(scopes, rest) {
            Some(i) => Some(i),
            None => wildcard_scope(scopes, rest),
        }
    }
}

/// The scope that claims a server name.
///
/// An absent name is the empty one, so a scope naming `""` can claim connections
/// without SNI on purpose. It is NOT a wildcard: a name that is present and
/// unmatched is still claimed by none.
pub open spec fn scope_of(scopes: Seq<Scope>, sni: Seq<u8>) -> Option<int> {
    match first_exact(scopes, sni) {
        Some(i) => Some(i),
        None => wildcard_scope(scopes, sni),
    }
}

/// Fold-compare: both sides are folded, so a mixed-case config still matches.
fn eq_fold(pat: &str, sni: &[u8]) -> (r: bool)
    ensures
        r == same_name(pat@, sni@),
{
    let p = pat.as_bytes();
    if p.len() != sni.len() {
        return false;
    }
    let mut i: usize = 0;
    while i < p.len()
        invariant
            i <= p@.len(),
            p@ == encode_utf8(pat@),
            p@.len() == sni@.len(),
            forall|j: int| 0 <= j < i ==> #[trigger] p@[j] == lower_byte(sni@[j]),
        decreases p@.len() - i,
    {
        if p[i] != small(sni[i]) {
            assert(folded(sni@)[i as int] != p@[i as int]);
            return false;
        }
        i += 1;
    }
    assert(p@ =~= folded(sni@));
    true
}

fn has_exact(scope: &Scope, sni: &[u8]) -> (r: bool)
    ensures
        r == names_exactly(*scope, sni@),
{
    let mut i: usize = 0;
    while i < scope.names.len()
        invariant
            i <= scope.names@.len(),
            forall|j: int|
                0 <= j < i ==> !is_exactly((#[trigger] scope.names@[j])@, sni@),
        decreases scope.names@.len() - i,
    {
        if let Pattern::Exact(e) = &scope.names[i] {
            if eq_fold(e, sni) {
                assert(scope.names@[i as int]@ == PatternView::Exact(e@));
                return true;
            }
        }
        i += 1;
    }
    false
}

fn has_suffix(scope: &Scope, rest: &[u8]) -> (r: bool)
    ensures
        r == names_suffix(*scope, rest@),
{
    let mut i: usize = 0;
    while i < scope.names.len()
        invariant
            i <= scope.names@.len(),
            forall|j: int|
                0 <= j < i ==> !is_wildcard_over((#[trigger] scope.names@[j])@, rest@),
        decreases scope.names@.len() - i,
    {
        if let Pattern::Suffix(x) = &scope.names[i] {
            if eq_fold(x, rest) {
                assert(scope.names@[i as int]@ == PatternView::Suffix(x@));
                return true;
            }
        }
        i += 1;
    }
    false
}

proof fn lemma_first_exact_prefix(scopes: Seq<Scope>, sni: Seq<u8>, n: int)
    requires
        0 <= n <= scopes.len(),
        first_exact(scopes.take(n), sni) is Some,
    ensures
        first_exact(scopes, sni) == first_exact(scopes.take(n), sni),
    decreases scopes.len(),
{
    if n == scopes.len() {
        assert(scopes.take(n) =~= scopes);
    } else {
        assert(scopes.drop_last().take(n) =~= scopes.take(n));
        lemma_first_exact_prefix(scopes.drop_last(), sni, n);
    }
}

proof fn lemma_first_suffix_prefix(scopes: Seq<Scope>, rest: Seq<u8>, n: int)
    requires
        0 <= n <= scopes.len(),
        first_suffix(scopes.take(n), rest) is Some,
    ensures
        first_suffix(scopes, rest) == first_suffix(scopes.take(n), rest),
    decreases scopes.len(),
{
    if n == scopes.len() {
        assert(scopes.take(n) =~= scopes);
    } else {
        assert(scopes.drop_last().take(n) =~= scopes.take(n));
        lemma_first_suffix_prefix(scopes.drop_last(), rest, n);
    }
}

/// Where the scope that claims a name stands.
fn position(scopes: &[Scope], sni: &[u8]) -> (r: Option<usize>)
    ensures
        match r {
            Some(i) => scope_of(scopes@, sni@) == Some(i as int) && i < scopes@.len(),
            None => scope_of(scopes@, sni@) is None,
        },
{
    let mut i: usize = 0;
    while i < scopes.len()
        invariant
            i <= scopes@.len(),
            first_exact(scopes@.take(i as int), sni@) is None,
        decreases scopes@.len() - i,
    {
        assert(scopes@.take(i + 1).drop_last() =~= scopes@.take(i as int));
        if has_exact(&scopes[i], sni) {
            proof {
                lemma_first_exact_prefix(scopes@, sni@, i + 1);
            }
            return Some(i);
        }
        i += 1;
    }
    assert(scopes@.take(i as int) =~= scopes@);
    let mut from: usize = 0;
    assert(sni@.skip(0) =~= sni@);
    let ghost goal = scope_of(scopes@, sni@);
    loop
        invariant
            from <= sni@.len(),
            goal == scope_of(scopes@, sni@),
            goal == wildcard_scope(scopes@, sni@.skip(from as int)),
        decreases sni@.len() - from,
    {
        let ghost name = sni@.skip(from as int);
        let mut dot: usize = from;
        while dot < sni.len() && sni[dot] != 0x2e
            invariant
                from <= dot <= sni@.len(),
                forall|j: int| from <= j < dot ==> sni@[j] != 0x2e,
            decreases sni@.len() - dot,
        {
            dot += 1;
        }
        proof {
            lemma_label_len(name);
            let k = label_len(name);
            if k < dot - from {
                assert(name[k] == sni@[from + k]);
            } else if dot - from < k {
                assert(name[dot - from] == sni@[dot as int]);
            }
        }
        if dot == sni.len() {
            return None;
        }
        from = dot + 1;
        let rest = slice_subrange(sni, from, sni.len());
        assert(rest@ =~= name.skip(label_len(name) + 1));
        assert(rest@ =~= sni@.skip(from as int));
        let mut i: usize = 0;
        while i < scopes.len()
            invariant
                i <= scopes@.len(),
                first_suffix(scopes@.take(i as int), rest@) is None,
                goal == scope_of(scopes@, sni@),
                goal == match first_suffix(scopes@, rest@) {
                    Some(i) => Some(i),
                    None => wildcard_scope(scopes@, rest@),
                },
            decreases scopes@.len() - i,
        {
            assert(scopes@.take(i + 1).drop_last() =~= scopes@.take(i as int));
            if has_suffix(&scopes[i], rest) {
                proof {
                    lemma_first_suffix_prefix(scopes@, rest@, i + 1);
                }
                return Some(i);
            }
            i += 1;
        }
        assert(scopes@.take(i as int) =~= scopes@);
    }
}

/// The allowlist of the scope that claims a server name.
pub fn match_scopes<'a>(scopes: &'a [Scope], sni: &[u8]) -> (r: Option<&'a CidrSet>)
    ensures
        match r {
            Some(set) => {
                &&& scope_of(scopes@, sni@) matches Some(i)
                &&& 0 <= i < scopes@.len()
                &&& *set == scopes@[i].allow
            },
            None => scope_of(scopes@, sni@) is None,
        },
{
    match position(scopes, sni) {
        Some(i) => Some(&scopes[i].allow),
        None => None,
    }
}

// --- laws ---------------------------------------------------------------------

proof fn lemma_first_exact(scopes: Seq<Scope>, sni: Seq<u8>)
    ensures
        match first_exact(scopes, sni) {
            Some(i) => 0 <= i < scopes.len() && names_exactly(scopes[i], sni) && forall|j: int|
                0 <= j < i ==> !names_exactly(#[trigger] scopes[j], sni),
            None => forall|j: int|
                0 <= j < scopes.len() ==> !names_exactly(#[trigger] scopes[j], sni),
        },
    decreases scopes.len(),
{
    if scopes.len() > 0 {
        let head = scopes.drop_last();
        lemma_first_exact(head, sni);
        assert forall|j: int| 0 <= j < head.len() implies head[j] == #[trigger] scopes[j] by {}
    }
}

proof fn lemma_first_suffix(scopes: Seq<Scope>, rest: Seq<u8>)
    ensures
        match first_suffix(scopes, rest) {
            Some(i) => 0 <= i < scopes.len() && names_suffix(scopes[i], rest) && forall|j: int|
                0 <= j < i ==> !names_suffix(#[trigger] scopes[j], rest),
            None => forall|j: int|
                0 <= j < scopes.len() ==> !names_suffix(#[trigger] scopes[j], rest),
        },
    decreases scopes.len(),
{
    if scopes.len() > 0 {
        let head = scopes.drop_last();
        lemma_first_suffix(head, rest);
        assert forall|j: int| 0 <= j < head.len() implies head[j] == #[trigger] scopes[j] by {}
    }
}

/// A scope that names the server exactly wins over every wildcard, and the first
/// such scope wins over the others.
pub proof fn law_exact_beats_wildcard(scopes: Seq<Scope>, sni: Seq<u8>, i: int)
    requires
        0 <= i < scopes.len(),
        names_exactly(scopes[i], sni),
        forall|j: int| 0 <= j < i ==> !names_exactly(#[trigger] scopes[j], sni),
    ensures
        scope_of(scopes, sni) == Some(i),
{
    lemma_first_exact(scopes, sni);
    match first_exact(scopes, sni) {
        Some(k) => {
            if k < i {
                assert(!names_exactly(scopes[k], sni));
            } else if i < k {
                assert(!names_exactly(scopes[i], sni));
            }
        },
        None => {
            assert(!names_exactly(scopes[i], sni));
        },
    }
}

/// `rest` is what is left of the name behind one of its dots.
pub open spec fn is_tail(name: Seq<u8>, at: int, rest: Seq<u8>) -> bool {
    0 <= at < name.len() && name[at] == 0x2e && rest == name.skip(at + 1)
}

/// A wildcard claims a name only behind one of the name's dots, so it needs a label
/// in front: it never claims its own parent, nor a name that merely ends in the
/// same characters. And no scope has a wildcard over a longer tail, nor an earlier one
/// over the same.
pub proof fn law_wildcards_claim_longest_tail(scopes: Seq<Scope>, name: Seq<u8>)
    ensures
        match wildcard_scope(scopes, name) {
            Some(i) => exists|at: int|
                {
                    &&& 0 <= i < scopes.len()
                    &&& #[trigger] is_tail(name, at, name.skip(at + 1))
                    &&& names_suffix(scopes[i], name.skip(at + 1))
                    &&& forall|b: int, j: int|
                        #![trigger is_tail(name, b, name.skip(b + 1)), scopes[j]]
                        (b < at || b == at && j < i) && is_tail(name, b, name.skip(b + 1)) && 0 <= j
                            < scopes.len() ==> !names_suffix(scopes[j], name.skip(b + 1))
                },
            None => forall|b: int, j: int|
                #![trigger is_tail(name, b, name.skip(b + 1)), scopes[j]]
                is_tail(name, b, name.skip(b + 1)) && 0 <= j < scopes.len() ==> !names_suffix(
                    scopes[j],
                    name.skip(b + 1),
                ),
        },
    decreases name.len(),
{
    let k = label_len(name);
    lemma_label_len(name);
    if k < name.len() {
        let rest = name.skip(k + 1);
        lemma_first_suffix(scopes, rest);
        law_wildcards_claim_longest_tail(scopes, rest);
        assert(is_tail(name, k, name.skip(k + 1)));
        // Behind a later dot of the name there is the same as behind that of the rest.
        assert forall|b: int| #[trigger] is_tail(name, b, name.skip(b + 1)) && b > k implies is_tail(
            rest,
            b - k - 1,
            rest.skip(b - k),
        ) && rest.skip(b - k) == name.skip(b + 1) by {
            assert(rest[b - k - 1] == name[b]);
            assert(rest.skip(b - k) =~= name.skip(b + 1));
        }
        assert forall|b: int| #[trigger] is_tail(name, b, name.skip(b + 1)) implies b >= k by {
            if b < k {
                assert(name[b] != 0x2e);
            }
        }
        if first_suffix(scopes, rest) is None {
            match wildcard_scope(scopes, rest) {
                Some(i) => {
                    let at = choose|at: int|
                        {
                            &&& 0 <= i < scopes.len()
                            &&& #[trigger] is_tail(rest, at, rest.skip(at + 1))
                            &&& names_suffix(scopes[i], rest.skip(at + 1))
                            &&& forall|b: int, j: int|
                                #![trigger is_tail(rest, b, rest.skip(b + 1)), scopes[j]]
                                (b < at || b == at && j < i) && is_tail(rest, b, rest.skip(b + 1))
                                    && 0 <= j < scopes.len() ==> !names_suffix(scopes[j], rest.skip(b + 1))
                        };
                    let there = at + k + 1;
                    assert(name[there] == rest[at]);
                    assert(name.skip(there + 1) =~= rest.skip(at + 1));
                    assert(is_tail(name, there, name.skip(there + 1)));
                    assert forall|b: int, j: int|
                        #![trigger is_tail(name, b, name.skip(b + 1)), scopes[j]]
                        (b < there || b == there && j < i) && is_tail(name, b, name.skip(b + 1)) && 0 <= j
                            < scopes.len() implies !names_suffix(scopes[j], name.skip(b + 1)) by {
                        if b == k {
                            assert(!names_suffix(scopes[j], rest));
                        } else {
                            assert(rest.skip((b - k - 1) + 1) == name.skip(b + 1));
                            assert(is_tail(rest, b - k - 1, rest.skip((b - k - 1) + 1)));
                        }
                    }
                },
                None => {
                    assert forall|b: int, j: int|
                        #![trigger is_tail(name, b, name.skip(b + 1)), scopes[j]]
                        is_tail(name, b, name.skip(b + 1)) && 0 <= j
                            < scopes.len() implies !names_suffix(scopes[j], name.skip(b + 1)) by {
                        if b == k {
                            assert(!names_suffix(scopes[j], rest));
                        } else {
                            assert(rest.skip((b - k - 1) + 1) == name.skip(b + 1));
                            assert(is_tail(rest, b - k - 1, rest.skip((b - k - 1) + 1)));
                        }
                    }
                },
            }
        }
    } else {
        assert forall|b: int, j: int|
            #![trigger is_tail(name, b, name.skip(b + 1)), scopes[j]]
            is_tail(name, b, name.skip(b + 1)) && 0 <= j < scopes.len() implies !names_suffix(
            scopes[j],
            name.skip(b + 1),
        ) by {
            assert(name[b] != 0x2e);
        }
    }
}

/// Without scopes no name is claimed, not even the empty one.
pub proof fn law_no_scope_claims_nothing(sni: Seq<u8>)
    ensures
        scope_of(seq![], sni) is None,
{
    lemma_no_wildcard(sni);
}

/// A connection without SNI is claimed only by a scope that names `""`.
pub proof fn law_absent_name_must_be_named(scopes: Seq<Scope>)
    ensures
        match scope_of(scopes, seq![]) {
            Some(i) => 0 <= i < scopes.len() && names_exactly(scopes[i], seq![]),
            None => forall|i: int|
                0 <= i < scopes.len() ==> !names_exactly(#[trigger] scopes[i], seq![]),
        },
{
    lemma_first_exact(scopes, seq![]);
}

/// A wildcard claims only names longer than itself: never its own parent.
pub proof fn law_wildcard_needs_a_label(scopes: Seq<Scope>, sni: Seq<u8>, i: int)
    requires
        scope_of(scopes, sni) == Some(i),
        !names_exactly(scopes[i], sni),
    ensures
        exists|rest: Seq<u8>| rest.len() < sni.len() && #[trigger] names_suffix(scopes[i], rest),
{
    lemma_first_exact(scopes, sni);
    law_wildcards_claim_longest_tail(scopes, sni);
    let at = choose|at: int|
        #[trigger] is_tail(sni, at, sni.skip(at + 1)) && names_suffix(
            scopes[i],
            sni.skip(at + 1),
        );
    assert(names_suffix(scopes[i], sni.skip(at + 1)));
}

proof fn lemma_no_wildcard(name: Seq<u8>)
    ensures
        wildcard_scope(seq![], name) is None,
    decreases name.len(),
{
    lemma_label_len(name);
    if label_len(name) < name.len() {
        lemma_no_wildcard(name.skip(label_len(name) + 1));
    }
}

proof fn lemma_fold_again(s: Seq<u8>)
    ensures
        folded(folded(s)) == folded(s),
        folded(s).len() == s.len(),
{
    assert(folded(folded(s)) =~= folded(s));
}

/// Capitals in a server name make no difference.
pub proof fn law_case_does_not_matter(scopes: Seq<Scope>, sni: Seq<u8>)
    ensures
        scope_of(scopes, folded(sni)) == scope_of(scopes, sni),
{
    lemma_exact_fold(scopes, sni);
    lemma_wildcard_fold(scopes, sni);
}

proof fn lemma_exact_fold(scopes: Seq<Scope>, sni: Seq<u8>)
    ensures
        first_exact(scopes, folded(sni)) == first_exact(scopes, sni),
    decreases scopes.len(),
{
    lemma_fold_again(sni);
    if scopes.len() > 0 {
        lemma_exact_fold(scopes.drop_last(), sni);
        assert(names_exactly(scopes.last(), folded(sni)) == names_exactly(scopes.last(), sni));
    }
}

proof fn lemma_suffix_fold(scopes: Seq<Scope>, rest: Seq<u8>)
    ensures
        first_suffix(scopes, folded(rest)) == first_suffix(scopes, rest),
    decreases scopes.len(),
{
    lemma_fold_again(rest);
    if scopes.len() > 0 {
        lemma_suffix_fold(scopes.drop_last(), rest);
        assert(names_suffix(scopes.last(), folded(rest)) == names_suffix(scopes.last(), rest));
    }
}

proof fn lemma_wildcard_fold(scopes: Seq<Scope>, name: Seq<u8>)
    ensures
        wildcard_scope(scopes, folded(name)) == wildcard_scope(scopes, name),
    decreases name.len(),
{
    lemma_label_len(name);
    lemma_label_len(folded(name));
    let k = label_len(name);
    let j = label_len(folded(name));
    if k < j {
        assert(folded(name)[k] == lower_byte(name[k]));
    } else if j < k {
        assert(folded(name)[j] == lower_byte(name[j]));
    }
    if k < name.len() {
        let rest = name.skip(k + 1);
        assert(folded(name).skip(k + 1) =~= folded(rest));
        lemma_suffix_fold(scopes, rest);
        lemma_wildcard_fold(scopes, rest);
    }
}

/// Folding changes ASCII capitals to their small letters and nothing else, in octets and
/// in characters, one by one.
pub proof fn law_folding_changes_capitals_only(octets: Seq<u8>, chars: Seq<char>)
    ensures
        folded(octets).len() == octets.len(),
        forall|i: int|
            0 <= i < octets.len() ==> #[trigger] folded(octets)[i] == if 0x41 <= octets[i] <= 0x5a {
                octets[i] + 0x20
            } else {
                octets[i] as int
            },
        lowered(chars).len() == chars.len(),
        forall|i: int|
            0 <= i < chars.len() ==> #[trigger] lowered(chars)[i] as int == if 0x41 <= chars[i] as int
                <= 0x5a {
                chars[i] as int + 0x20
            } else {
                chars[i] as int
            },
{
}

/// Two runs of octets that are the same up to the size of their ASCII letters.
pub open spec fn but_for_case(a: Seq<u8>, b: Seq<u8>) -> bool {
    &&& a.len() == b.len()
    &&& forall|i: int|
        0 <= i < a.len() ==> {
            ||| #[trigger] a[i] == b[i]
            ||| 0x41 <= a[i] <= 0x5a && b[i] == a[i] + 0x20
            ||| 0x41 <= b[i] <= 0x5a && a[i] == b[i] + 0x20
        }
}

proof fn lemma_but_for_case(a: Seq<u8>, b: Seq<u8>)
    ensures
        but_for_case(a, b) <==> folded(a) == folded(b),
{
    if but_for_case(a, b) {
        assert forall|i: int| 0 <= i < a.len() implies folded(a)[i] == folded(b)[i] by {
            assert(a[i] == a[i]);
        }
        assert(folded(a) =~= folded(b));
    }
    if folded(a) == folded(b) {
        assert(folded(a).len() == a.len() && folded(b).len() == b.len());
        assert forall|i: int| 0 <= i < a.len() implies {
            ||| #[trigger] a[i] == b[i]
            ||| 0x41 <= a[i] <= 0x5a && b[i] == a[i] + 0x20
            ||| 0x41 <= b[i] <= 0x5a && a[i] == b[i] + 0x20
        } by {
            assert(folded(a)[i] == folded(b)[i]);
        }
    }
}

proof fn lemma_high_octets(x: u8)
    by (bit_vector)
    ensures
        (0x80u8 | x) >= 0x80,
        (0xc0u8 | x) >= 0x80,
        (0xe0u8 | x) >= 0x80,
        (0xf0u8 | x) >= 0x80,
{
}

proof fn lemma_fold_scalar(c: char)
    ensures
        folded(encode_scalar(c as u32)) == encode_scalar(lower_char(c) as u32),
        (c as u32) < 0x80 ==> encode_scalar(c as u32) == seq![c as u8],
{
    let v = c as u32;
    let w = lower_char(c) as u32;
    if v < 0x80 {
        assert((v & 0x7f) as u8 == v) by (bit_vector)
            requires
                v < 0x80,
        ;
        assert((w & 0x7f) as u8 == w) by (bit_vector)
            requires
                w < 0x80,
        ;
        assert(encode_scalar(v) =~= seq![v as u8]);
        assert(encode_scalar(w) =~= seq![w as u8]);
        assert(folded(seq![v as u8]) =~= seq![w as u8]);
    } else {
        lemma_high_octets(((v >> 6) & 0x1f) as u8);
        lemma_high_octets(((v >> 12) & 0x0f) as u8);
        lemma_high_octets(((v >> 18) & 0x7) as u8);
        lemma_high_octets((v & 0x3f) as u8);
        lemma_high_octets(((v >> 6) & 0x3f) as u8);
        lemma_high_octets(((v >> 12) & 0x3f) as u8);
        assert(w == v);
        let e = encode_scalar(v);
        assert forall|i: int| 0 <= i < e.len() implies #[trigger] e[i] >= 0x80 by {}
        assert(folded(e) =~= e);
    }
}

proof fn lemma_fold_text(t: Seq<char>)
    ensures
        folded(encode_utf8(t)) == encode_utf8(lowered(t)),
    decreases t.len(),
{
    if t.len() == 0 {
        assert(lowered(t) =~= t);
        assert(folded(encode_utf8(t)) =~= encode_utf8(t));
    } else {
        lemma_fold_text(t.drop_first());
        lemma_fold_scalar(t[0]);
        assert(lowered(t).drop_first() =~= lowered(t.drop_first()));
        assert(lowered(t)[0] == lower_char(t[0]));
        let a = encode_scalar(t[0] as u32);
        let b = encode_utf8(t.drop_first());
        assert(folded(a + b) =~= folded(a) + folded(b));
    }
}

/// The entry is a wildcard: `*.` and something behind it.
pub open spec fn is_star(t: Seq<char>) -> bool {
    t.len() > 2 && t[0] == '*' && t[1] == '.'
}

/// One of the entries is this very name.
pub open spec fn some_is(texts: Seq<Seq<char>>, name: Seq<u8>) -> bool {
    exists|j: int|
        0 <= j < texts.len() && !is_star(#[trigger] texts[j]) && but_for_case(
            encode_utf8(texts[j]),
            name,
        )
}

/// One of the entries is a wildcard over what stands behind the dot at `at`.
pub open spec fn some_covers(texts: Seq<Seq<char>>, name: Seq<u8>, at: int) -> bool {
    &&& 0 <= at < name.len()
    &&& name[at] == 0x2e
    &&& exists|j: int|
        0 <= j < texts.len() && is_star(#[trigger] texts[j]) && but_for_case(
            encode_utf8(texts[j].skip(2)),
            name.skip(at + 1),
        )
}

/// The scope's names were read from these entries.
pub open spec fn reads(scope: Scope, texts: Seq<Seq<char>>) -> bool {
    &&& scope.names@.len() == texts.len()
    &&& forall|j: int| 0 <= j < texts.len() ==> (#[trigger] scope.names@[j])@ == pattern_of(texts[j])
}

proof fn lemma_entry(t: Seq<char>, name: Seq<u8>)
    ensures
        is_exactly(pattern_of(t), name) <==> !is_star(t) && but_for_case(encode_utf8(t), name),
        is_wildcard_over(pattern_of(t), name) <==> is_star(t) && but_for_case(
            encode_utf8(t.skip(2)),
            name,
        ),
{
    lemma_fold_text(t);
    lemma_but_for_case(encode_utf8(t), name);
    if is_star(t) {
        assert(lowered(t)[0] == '*' && lowered(t)[1] == '.');
        assert(lowered(t).skip(2) =~= lowered(t.skip(2)));
        lemma_fold_text(t.skip(2));
        lemma_but_for_case(encode_utf8(t.skip(2)), name);
    } else if t.len() > 2 {
        assert(lowered(t)[0] == lower_char(t[0]) && lowered(t)[1] == lower_char(t[1]));
    }
}

proof fn lemma_reads(scope: Scope, texts: Seq<Seq<char>>, name: Seq<u8>)
    requires
        reads(scope, texts),
    ensures
        names_exactly(scope, name) <==> some_is(texts, name),
        names_suffix(scope, name) <==> exists|j: int|
            0 <= j < texts.len() && is_star(#[trigger] texts[j]) && but_for_case(
                encode_utf8(texts[j].skip(2)),
                name,
            ),
{
    assert forall|j: int| 0 <= j < texts.len() implies is_exactly(
        (#[trigger] scope.names@[j])@,
        name,
    ) == (!is_star(texts[j]) && but_for_case(encode_utf8(texts[j]), name)) && is_wildcard_over(
        scope.names@[j]@,
        name,
    ) == (is_star(texts[j]) && but_for_case(encode_utf8(texts[j].skip(2)), name)) by {
        lemma_entry(texts[j], name);
    }
    if names_exactly(scope, name) {
        let j = choose|j: int|
            0 <= j < scope.names@.len() && is_exactly((#[trigger] scope.names@[j])@, name);
        assert(!is_star(texts[j]));
    }
    if some_is(texts, name) {
        let j = choose|j: int|
            0 <= j < texts.len() && !is_star(#[trigger] texts[j]) && but_for_case(
                encode_utf8(texts[j]),
                name,
            );
        assert(is_exactly(scope.names@[j]@, name));
    }
    if names_suffix(scope, name) {
        let j = choose|j: int|
            0 <= j < scope.names@.len() && is_wildcard_over((#[trigger] scope.names@[j])@, name);
        assert(is_star(texts[j]));
    }
    if exists|j: int|
        0 <= j < texts.len() && is_star(#[trigger] texts[j]) && but_for_case(
            encode_utf8(texts[j].skip(2)),
            name,
        ) {
        let j = choose|j: int|
            0 <= j < texts.len() && is_star(#[trigger] texts[j]) && but_for_case(
                encode_utf8(texts[j].skip(2)),
                name,
            );
        assert(is_wildcard_over(scope.names@[j]@, name));
    }
}

/// Which scope claims a name, in terms of the entries as they were written. The first
/// scope with an entry that is the name has it; where there is none, the one with a
/// wildcard over the longest tail of the name, the first of them where several have it;
/// and where there is none of these either, no scope has it.
pub proof fn law_entries_decide_the_scope(
    scopes: Seq<Scope>,
    texts: Seq<Seq<Seq<char>>>,
    name: Seq<u8>,
)
    requires
        texts.len() == scopes.len(),
        forall|k: int| 0 <= k < texts.len() ==> reads(#[trigger] scopes[k], texts[k]),
    ensures
        match scope_of(scopes, name) {
            Some(k) => 0 <= k < texts.len() && {
                ||| some_is(texts[k], name) && forall|j: int|
                    0 <= j < k ==> !some_is(#[trigger] texts[j], name)
                ||| {
                    &&& forall|j: int|
                        0 <= j < texts.len() ==> !some_is(#[trigger] texts[j], name)
                    &&& exists|at: int|
                        {
                            &&& #[trigger] some_covers(texts[k], name, at)
                            &&& forall|b: int, j: int|
                                0 <= j < texts.len() && (b < at || b == at && j < k)
                                    ==> !#[trigger] some_covers(texts[j], name, b)
                        }
                }
            },
            None => {
                &&& forall|j: int| 0 <= j < texts.len() ==> !some_is(#[trigger] texts[j], name)
                &&& forall|b: int, j: int|
                    0 <= j < texts.len() ==> !#[trigger] some_covers(texts[j], name, b)
            },
        },
{
    assert forall|j: int| 0 <= j < texts.len() implies names_exactly(#[trigger] scopes[j], name)
        == some_is(texts[j], name) by {
        lemma_reads(scopes[j], texts[j], name);
    }
    assert forall|b: int, j: int| 0 <= j < texts.len() implies #[trigger] some_covers(
        texts[j],
        name,
        b,
    ) == (is_tail(name, b, name.skip(b + 1)) && names_suffix(scopes[j], name.skip(b + 1))) by {
        assert(reads(scopes[j], texts[j]));
        lemma_reads(scopes[j], texts[j], name.skip(b + 1));
    }
    lemma_first_exact(scopes, name);
    law_wildcards_claim_longest_tail(scopes, name);
    if first_exact(scopes, name) is None {
        assert forall|j: int| 0 <= j < texts.len() implies !some_is(#[trigger] texts[j], name) by {
            assert(!names_exactly(scopes[j], name));
        }
        match wildcard_scope(scopes, name) {
            Some(i) => {
                let at = choose|at: int|
                    {
                        &&& 0 <= i < scopes.len()
                        &&& #[trigger] is_tail(name, at, name.skip(at + 1))
                        &&& names_suffix(scopes[i], name.skip(at + 1))
                        &&& forall|b: int, j: int|
                            #![trigger is_tail(name, b, name.skip(b + 1)), scopes[j]]
                            (b < at || b == at && j < i) && is_tail(name, b, name.skip(b + 1))
                                && 0 <= j < scopes.len() ==> !names_suffix(
                                scopes[j],
                                name.skip(b + 1),
                            )
                    };
                assert(some_covers(texts[i], name, at));
                assert forall|b: int, j: int|
                    0 <= j < texts.len() && (b < at || b == at && j < i) implies !#[trigger] some_covers(
                    texts[j],
                    name,
                    b,
                ) by {
                    let s = scopes[j];
                }
            },
            None => {},
        }
    } else {
        let k = first_exact(scopes, name)->Some_0;
        assert(names_exactly(scopes[k], name));
        assert forall|j: int| 0 <= j < k implies !some_is(#[trigger] texts[j], name) by {
            assert(!names_exactly(scopes[j], name));
        }
    }
}

/// An entry that is no wildcard claims the name that it spells, and with no scope before
/// its own, its scope has it.
pub proof fn law_entry_claims_its_own_name(scope: Scope, more: Seq<Scope>, j: int, t: Seq<char>)
    requires
        0 <= j < scope.names@.len(),
        scope.names@[j]@ == pattern_of(t),
        t.len() <= 2 || t[0] != '*' || t[1] != '.',
    ensures
        scope_of(seq![scope] + more, encode_utf8(t)) == Some(0int),
{
    let name = encode_utf8(t);
    lemma_entry(t, name);
    assert(is_exactly(scope.names@[j]@, name));
    assert((seq![scope] + more)[0] == scope);
    law_exact_beats_wildcard(seq![scope] + more, name, 0);
}

/// A wildcard claims every name that has its tail behind a dot.
pub proof fn law_wildcard_claims_what_ends_in_it(scope: Scope, j: int, t: Seq<char>, label: Seq<u8>)
    requires
        0 <= j < scope.names@.len(),
        t.len() > 0,
        scope.names@[j]@ == pattern_of(seq!['*', '.'] + t),
    ensures
        scope_of(seq![scope], label + seq![0x2eu8] + encode_utf8(t)) == Some(0int),
{
    let name = label + seq![0x2eu8] + encode_utf8(t);
    let at = label.len() as int;
    let rest = name.skip(at + 1);
    let all = seq![scope];
    assert(rest =~= encode_utf8(t));
    assert((seq!['*', '.'] + t).skip(2) =~= t);
    lemma_entry(seq!['*', '.'] + t, rest);
    assert(is_wildcard_over(scope.names@[j]@, rest));
    assert(names_suffix(all[0], rest));
    assert(is_tail(name, at, name.skip(at + 1)));
    lemma_first_exact(all, name);
    law_wildcards_claim_longest_tail(all, name);
}

} // verus!
