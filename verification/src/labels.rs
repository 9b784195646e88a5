//! Who owns which label: octet strings in order, each once, with one id.

use crate::order::{
    in_order, lemma_lex_antisymmetric, lemma_lex_total, lemma_lex_transitive, lemma_same_values,
    lex, octets_equal, octets_in_order, sorted, Ordered,
};
use crate::segments::{
    join, join_ids, lemma_settled_join, lemma_settled_one, lemma_settled_same, settled,
};
use vstd::prelude::*;
use vstd::slice::slice_to_vec;

verus! {

#[derive(Debug)]
pub struct Label {
    pub text: Vec<u8>,
    pub id: u16,
}

impl Ordered for Label {
    open spec fn before(&self, other: &Self) -> bool {
        lex(self.text@, other.text@)
    }

    proof fn lemma_total(a: &Self, b: &Self) {
        lemma_lex_total(a.text@, b.text@);
    }

    proof fn lemma_transitive(a: &Self, b: &Self, c: &Self) {
        lemma_lex_transitive(a.text@, b.text@, c.text@);
    }

    fn is_before(&self, other: &Self) -> (r: bool) {
        octets_in_order(&self.text, &other.text)
    }
}

/// `id` lists the label.
pub open spec fn listed(all: Seq<Label>, text: Seq<u8>, id: u16) -> bool {
    exists|k: int| 0 <= k < all.len() && (#[trigger] all[k]).text@ == text && all[k].id == id
}

/// In order, and no label twice.
pub open spec fn indexed(ls: Seq<Label>) -> bool {
    forall|j: int, k: int|
        #![trigger ls[j], ls[k]]
        0 <= j < k < ls.len() ==> lex(ls[j].text@, ls[k].text@) && ls[j].text@ != ls[k].text@
}

/// Who owns a label, by the index.
pub open spec fn entry(ls: Seq<Label>, text: Seq<u8>) -> Option<u16> {
    if exists|k: int| 0 <= k < ls.len() && (#[trigger] ls[k]).text@ == text {
        Some(ls[choose|k: int| 0 <= k < ls.len() && (#[trigger] ls[k]).text@ == text].id)
    } else {
        None
    }
}

pub proof fn lemma_entry(ls: Seq<Label>, k: int)
    requires
        indexed(ls),
        0 <= k < ls.len(),
    ensures
        entry(ls, ls[k].text@) == Some(ls[k].id),
{
    let text = ls[k].text@;
    let j = choose|j: int| 0 <= j < ls.len() && (#[trigger] ls[j]).text@ == text;
    assert(j >= k || ls[j].text@ != ls[k].text@);
    assert(k >= j || ls[k].text@ != ls[j].text@);
}

/// One more claim on a label joins what the claims so far come to.
proof fn lemma_one_more(all: Seq<Label>, i: int, text: Seq<u8>)
    requires
        0 <= i < all.len(),
    ensures
        settled(|id: u16| listed(all.take(i + 1), text, id)) == join(
            settled(|id: u16| listed(all.take(i), text, id)),
            if all[i].text@ == text {
                Some(all[i].id)
            } else {
                None
            },
        ),
{
    let p = |id: u16| listed(all.take(i), text, id);
    let q = |id: u16| all[i].text@ == text && all[i].id == id;
    let both = |id: u16| listed(all.take(i + 1), text, id);
    assert forall|id: u16| #[trigger] both(id) <==> p(id) || q(id) by {
        let head = all.take(i);
        let more = all.take(i + 1);
        if p(id) {
            let k = choose|k: int|
                0 <= k < head.len() && (#[trigger] head[k]).text@ == text && head[k].id == id;
            assert(more[k].text@ == text);
        }
        if q(id) {
            assert(more[i].text@ == text);
        }
        if both(id) && !q(id) {
            let k = choose|k: int|
                0 <= k < more.len() && (#[trigger] more[k]).text@ == text && more[k].id == id;
            assert(head[k].text@ == text);
        }
    }
    lemma_settled_join(p, q, both);
    if all[i].text@ == text {
        assert(q(all[i].id));
        lemma_settled_one(q, all[i].id);
    }
}

/// Each label once, with the id that its claims come to.
pub fn index(claims: Vec<Label>) -> (r: Vec<Label>)
    ensures
        indexed(r@),
        forall|text: Seq<u8>|
            #[trigger] entry(r@, text) == settled(|id: u16| listed(claims@, text, id)),
{
    let ghost given = claims@;
    let all = sorted(claims);
    let mut out: Vec<Label> = Vec::new();
    let mut i: usize = 0;
    proof {
        assert forall|text: Seq<u8>|
            #[trigger] entry(out@, text) == settled(
                |id: u16| listed(all@.take(0), text, id),
            ) by {
            let p = |id: u16| listed(all@.take(0), text, id);
            assert(forall|id: u16| !#[trigger] p(id));
        }
    }
    while i < all.len()
        invariant
            i <= all@.len(),
            in_order(all@),
            indexed(out@),
            i == 0 ==> out@.len() == 0,
            i > 0 ==> out@.len() > 0 && out@.last().text@ == all@[i - 1].text@,
            forall|text: Seq<u8>|
                #[trigger] entry(out@, text) == settled(
                    |id: u16| listed(all@.take(i as int), text, id),
                ),
        decreases all@.len() - i,
    {
        let ghost before = out@;
        let n = out.len();
        let ghost text = all@[i as int].text@;
        if n > 0 && octets_equal(&out[n - 1].text, &all[i].text) {
            let joined = join_ids(Some(out[n - 1].id), Some(all[i].id));
            if let Some(id) = joined {
                let label = Label { text: slice_to_vec(&all[i].text), id };
                out.set(n - 1, label);
                assert(out@[n - 1].text@ =~= text);
            }
        } else {
            let label = Label { text: slice_to_vec(&all[i].text), id: all[i].id };
            out.push(label);
            assert(out@[n as int].text@ =~= text);
            proof {
                assert forall|j: int| 0 <= j < n implies lex(
                    (#[trigger] before[j]).text@,
                    text,
                ) && before[j].text@ != text by {
                    let last = before[n - 1].text@;
                    assert(all@[i - 1].before(&all@[i as int]));
                    if j < n - 1 {
                        assert(lex(before[j].text@, before[n - 1].text@));
                        lemma_lex_transitive(before[j].text@, last, text);
                        if before[j].text@ == text {
                            lemma_lex_antisymmetric(last, text);
                        }
                    }
                }
            }
        }
        proof {
            assert(indexed(out@));
            let m = out@.len() - 1;
            assert forall|t: Seq<u8>|
                #[trigger] entry(out@, t) == settled(
                    |id: u16| listed(all@.take(i + 1), t, id),
                ) by {
                lemma_one_more(all@, i as int, t);
                assert(entry(before, t) == settled(|id: u16| listed(all@.take(i as int), t, id)));
                if t == text {
                    lemma_entry(out@, m);
                    if m < n {
                        lemma_entry(before, m);
                    } else {
                        assert forall|k: int| 0 <= k < before.len() implies (
                        #[trigger] before[k]).text@ != t by {
                            assert(out@[k].text@ != out@[m].text@);
                        }
                    }
                } else if exists|k: int| 0 <= k < before.len() && (#[trigger] before[k]).text@
                    == t {
                    let k = choose|k: int|
                        0 <= k < before.len() && (#[trigger] before[k]).text@ == t;
                    lemma_entry(before, k);
                    assert(out@[k] == before[k]);
                    lemma_entry(out@, k);
                } else {
                    assert forall|k: int| 0 <= k < out@.len() implies (#[trigger] out@[k]).text@
                        != t by {
                        if k < m {
                            assert(before[k].text@ != t);
                        }
                    }
                }
            }
        }
        i += 1;
    }
    proof {
        assert(all@.take(i as int) =~= all@);
        lemma_same_values(given, all@);
        assert forall|text: Seq<u8>|
            #[trigger] entry(out@, text) == settled(|id: u16| listed(given, text, id)) by {
            let p = |id: u16| listed(given, text, id);
            let q = |id: u16| listed(all@, text, id);
            assert forall|id: u16| #[trigger] p(id) <==> q(id) by {
                if p(id) {
                    let k = choose|k: int|
                        0 <= k < given.len() && (#[trigger] given[k]).text@ == text && given[k].id
                            == id;
                    assert(given.contains(given[k]));
                    assert(all@.contains(given[k]));
                    let m = choose|m: int| 0 <= m < all@.len() && all@[m] == given[k];
                    assert(all@[m].text@ == text);
                }
                if q(id) {
                    let k = choose|k: int|
                        0 <= k < all@.len() && (#[trigger] all@[k]).text@ == text && all@[k].id
                            == id;
                    assert(all@.contains(all@[k]));
                    assert(given.contains(all@[k]));
                    let m = choose|m: int| 0 <= m < given.len() && given[m] == all@[k];
                    assert(given[m].text@ == text);
                }
            }
            lemma_settled_same(p, q);
        }
    }
    out
}

/// Who owns a label.
pub fn lookup(ls: &[Label], text: &[u8]) -> (r: Option<u16>)
    requires
        indexed(ls@),
    ensures
        r == entry(ls@, text@),
{
    let mut lo: usize = 0;
    let mut hi: usize = ls.len();
    while lo < hi
        invariant
            lo <= hi <= ls@.len(),
            indexed(ls@),
            forall|k: int| 0 <= k < lo ==> !lex(text@, (#[trigger] ls@[k]).text@),
            forall|k: int| hi <= k < ls@.len() ==> lex(text@, (#[trigger] ls@[k]).text@),
        decreases hi - lo,
    {
        let mid = lo + (hi - lo) / 2;
        if octets_in_order(text, &ls[mid].text) {
            assert forall|k: int| mid <= k < ls@.len() implies lex(
                text@,
                (#[trigger] ls@[k]).text@,
            ) by {
                if k > mid {
                    assert(lex(ls@[mid as int].text@, ls@[k].text@));
                    lemma_lex_transitive(text@, ls@[mid as int].text@, ls@[k].text@);
                }
            }
            hi = mid;
        } else {
            assert forall|k: int| 0 <= k <= mid implies !lex(
                text@,
                (#[trigger] ls@[k]).text@,
            ) by {
                if k < mid && lex(text@, ls@[k].text@) {
                    assert(lex(ls@[k].text@, ls@[mid as int].text@));
                    lemma_lex_transitive(text@, ls@[k].text@, ls@[mid as int].text@);
                }
            }
            lo = mid + 1;
        }
    }
    if lo < ls.len() && octets_equal(&ls[lo].text, text) {
        proof {
            lemma_entry(ls@, lo as int);
        }
        Some(ls[lo].id)
    } else {
        proof {
            lemma_lex_total(text@, text@);
            assert forall|k: int| 0 <= k < ls@.len() implies (#[trigger] ls@[k]).text@
                != text@ by {
                if k > lo && ls@[k].text@ == text@ {
                    assert(lex(ls@[lo as int].text@, ls@[k].text@));
                    lemma_lex_antisymmetric(ls@[lo as int].text@, text@);
                }
            }
        }
        None
    }
}

// --- laws ---------------------------------------------------------------------

/// A label is the one's that the index has for it, and nobody's where it has none.
pub proof fn law_labels_are_found_as_written(ls: Seq<Label>, text: Seq<u8>, k: int)
    requires
        indexed(ls),
    ensures
        0 <= k < ls.len() && ls[k].text@ == text ==> entry(ls, text) == Some(ls[k].id),
        (forall|j: int| 0 <= j < ls.len() ==> (#[trigger] ls[j]).text@ != text) ==> entry(
            ls,
            text,
        ) is None,
{
    if 0 <= k < ls.len() && ls[k].text@ == text {
        lemma_entry(ls, k);
    }
}

} // verus!
