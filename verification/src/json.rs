//! JSON, one layer at a time: what serde_json reads from a text, as plain values.
//!
//! A value inside another is handed back as its own text, to be read in turn.

use crate::order::lex;
use crate::text::{chars_of, string_of, texts};
use serde_json::value::RawValue;
use std::collections::BTreeMap;
use vstd::prelude::*;
use vstd::utf8::encode_utf8;

verus! {

/// The fields of an object, each once with the text of its value, or what is wrong.
pub uninterp spec fn json_object(text: Seq<char>) -> Result<
    Seq<(Seq<char>, Seq<char>)>,
    Seq<char>,
>;

/// The strings of an array of strings, or what is wrong.
pub uninterp spec fn json_strings(text: Seq<char>) -> Result<Seq<Seq<char>>, Seq<char>>;

/// The lists of strings of an object that holds nothing else, with their names, or
/// what is wrong.
pub uninterp spec fn json_lists(text: Seq<char>) -> Result<
    Seq<(Seq<char>, Seq<Seq<char>>)>,
    Seq<char>,
>;

/// The texts of the items of an array, nothing for null, or what is wrong.
pub uninterp spec fn json_items(text: Seq<char>) -> Result<Option<Seq<Seq<char>>>, Seq<char>>;

/// A string, nothing for null, or what is wrong.
pub uninterp spec fn json_string(text: Seq<char>) -> Result<Option<Seq<char>>, Seq<char>>;

/// A boolean, or what is wrong.
pub uninterp spec fn json_bool(text: Seq<char>) -> Result<bool, Seq<char>>;

/// The characters of the names and values.
pub open spec fn pair_texts(v: Seq<(String, String)>) -> Seq<(Seq<char>, Seq<char>)> {
    v.map_values(|p: (String, String)| (p.0@, p.1@))
}

/// `serde_json::from_str` to a `BTreeMap<String, Box<RawValue>>`: of each value the
/// text that stands for it. The result is `json_object` of the text. Neither the
/// order of the fields is said, nor which value a field has that is written twice.
#[verifier::external_body]
pub(crate) fn object(text: &str) -> (r: Result<Vec<(String, String)>, String>)
    ensures
        match r {
            Ok(fields) => json_object(text@) == Ok::<Seq<(Seq<char>, Seq<char>)>, Seq<char>>(
                pair_texts(fields@),
            ),
            Err(e) => json_object(text@) == Err::<Seq<(Seq<char>, Seq<char>)>, Seq<char>>(e@),
        },
{
    serde_json::from_str::<BTreeMap<String, Box<RawValue>>>(text)
        .map(|m| m.into_iter().map(|(k, v)| (k, v.get().to_string())).collect())
        .map_err(|e| e.to_string())
}

/// `serde_json::from_str` to a `Vec<String>`. The result is `json_strings` of the
/// text.
#[verifier::external_body]
pub(crate) fn strings(text: &str) -> (r: Result<Vec<String>, String>)
    ensures
        match r {
            Ok(list) => json_strings(text@) == Ok::<Seq<Seq<char>>, Seq<char>>(
                texts(list@),
            ),
            Err(e) => json_strings(text@) == Err::<Seq<Seq<char>>, Seq<char>>(e@),
        },
{
    serde_json::from_str::<Vec<String>>(text).map_err(|e| e.to_string())
}

/// A name and a list of strings.
pub type Named = (Seq<char>, Seq<Seq<char>>);

pub open spec fn named(v: Seq<(String, Vec<String>)>) -> Seq<Named> {
    v.map_values(|p: (String, Vec<String>)| (p.0@, texts(p.1@)))
}

/// In the order of the names, octet by octet, and no name twice.
pub open spec fn by_name(v: Seq<Named>) -> bool {
    forall|i: int, j: int|
        #![trigger v[i], v[j]]
        0 <= i < j < v.len() ==> v[i].0 != v[j].0 && lex(
            encode_utf8(v[i].0),
            encode_utf8(v[j].0),
        )
}

/// `serde_json::from_str` to a `BTreeMap<String, Vec<String>>`. The result is
/// `json_lists` of the text, and as such a map is gone through in the order of its
/// keys, each once, so are the names. Which list a name has that is written twice
/// is not said.
#[verifier::external_body]
pub(crate) fn lists(text: &str) -> (r: Result<Vec<(String, Vec<String>)>, String>)
    ensures
        match r {
            Ok(v) => json_lists(text@) == Ok::<Seq<Named>, Seq<char>>(named(v@)) && by_name(
                named(v@),
            ),
            Err(e) => json_lists(text@) == Err::<Seq<Named>, Seq<char>>(e@),
        },
{
    serde_json::from_str::<BTreeMap<String, Vec<String>>>(text)
        .map(|m| m.into_iter().collect())
        .map_err(|e| e.to_string())
}

/// `serde_json::from_str` to an `Option<Vec<Box<RawValue>>>`: of each item the text
/// that stands for it. The result is `json_items` of the text.
#[verifier::external_body]
pub(crate) fn items(text: &str) -> (r: Result<Option<Vec<String>>, String>)
    ensures
        match r {
            Ok(Some(list)) => json_items(text@) == Ok::<Option<Seq<Seq<char>>>, Seq<char>>(
                Some(texts(list@)),
            ),
            Ok(None) => json_items(text@) == Ok::<Option<Seq<Seq<char>>>, Seq<char>>(None),
            Err(e) => json_items(text@) == Err::<Option<Seq<Seq<char>>>, Seq<char>>(e@),
        },
{
    serde_json::from_str::<Option<Vec<Box<RawValue>>>>(text)
        .map(|list| list.map(|l| l.into_iter().map(|v| v.get().to_string()).collect()))
        .map_err(|e| e.to_string())
}

/// `serde_json::from_str` to an `Option<String>`. The result is `json_string` of
/// the text.
#[verifier::external_body]
pub(crate) fn string(text: &str) -> (r: Result<Option<String>, String>)
    ensures
        match r {
            Ok(Some(s)) => json_string(text@) == Ok::<Option<Seq<char>>, Seq<char>>(Some(s@)),
            Ok(None) => json_string(text@) == Ok::<Option<Seq<char>>, Seq<char>>(None),
            Err(e) => json_string(text@) == Err::<Option<Seq<char>>, Seq<char>>(e@),
        },
{
    serde_json::from_str::<Option<String>>(text).map_err(|e| e.to_string())
}

/// `serde_json::from_str` to a `bool`. The result is `json_bool` of the text.
#[verifier::external_body]
pub(crate) fn boolean(text: &str) -> (r: Result<bool, String>)
    ensures
        match r {
            Ok(b) => json_bool(text@) == Ok::<bool, Seq<char>>(b),
            Err(e) => json_bool(text@) == Err::<bool, Seq<char>>(e@),
        },
{
    serde_json::from_str::<bool>(text).map_err(|e| e.to_string())
}

// --- the fields as they are written -------------------------------------------

/// How far a text has been gone through.
pub struct Scan {
    /// Inside a string, and behind a backslash there.
    pub quoted: bool,
    pub escaped: bool,
    /// How many objects and arrays are open.
    pub depth: int,
    /// The last string so far, as it is written.
    pub word: Seq<char>,
    /// The strings before the colons that stood directly in the outermost of them.
    pub keys: Seq<Seq<char>>,
}

pub open spec fn step(p: Scan, c: char) -> Scan {
    if p.escaped {
        Scan { escaped: false, word: p.word.push(c), ..p }
    } else if p.quoted {
        Scan { escaped: c == '\\', quoted: c != '"', word: p.word.push(c), ..p }
    } else if c == '"' {
        Scan { quoted: true, word: seq![c], ..p }
    } else if c == '{' || c == '[' {
        Scan { depth: p.depth + 1, ..p }
    } else if c == '}' || c == ']' {
        Scan { depth: p.depth - 1, ..p }
    } else if c == ':' && p.depth == 1 {
        Scan { keys: p.keys.push(p.word), ..p }
    } else {
        p
    }
}

pub open spec fn scanned(s: Seq<char>) -> Scan
    decreases s.len(),
{
    if s.len() == 0 {
        Scan { quoted: false, escaped: false, depth: 0, word: seq![], keys: seq![] }
    } else {
        step(scanned(s.drop_last()), s.last())
    }
}

/// The names of the fields of an object as its text writes them, in quotes and one
/// after the other, those written twice among them: each has a colon behind it,
/// outside any string and in no object or array within.
pub open spec fn written_keys(text: Seq<char>) -> Seq<Seq<char>> {
    scanned(text).keys
}

/// The names of the fields of an object as its text writes them.
pub fn keys(text: &str) -> (r: Vec<String>)
    ensures
        texts(r@) == written_keys(text@),
{
    let chars = chars_of(text);
    let mut quoted = false;
    let mut escaped = false;
    let mut depth: i128 = 0;
    let mut word: Vec<char> = Vec::new();
    let mut out: Vec<String> = Vec::new();
    let mut i: usize = 0;
    assert(texts(out@) =~= seq![]);
    assert(word@ =~= seq![]);
    while i < chars.len()
        invariant
            chars@ == text@,
            i <= chars@.len(),
            scanned(chars@.take(i as int)) == (Scan {
                quoted,
                escaped,
                depth: depth as int,
                word: word@,
                keys: texts(out@),
            }),
            -i <= depth <= i,
        decreases chars@.len() - i,
    {
        let c = chars[i];
        let ghost so_far = texts(out@);
        proof {
            assert(chars@.take(i + 1).drop_last() =~= chars@.take(i as int));
            assert(chars@.take(i + 1).last() == c);
        }
        if escaped {
            escaped = false;
            word.push(c);
        } else if quoted {
            escaped = c == '\\';
            quoted = c != '"';
            word.push(c);
        } else if c == '"' {
            quoted = true;
            word = Vec::new();
            word.push(c);
            assert(word@ =~= seq![c]);
        } else if c == '{' || c == '[' {
            depth = depth + 1;
        } else if c == '}' || c == ']' {
            depth = depth - 1;
        } else if c == ':' && depth == 1 {
            out.push(string_of(&word));
            assert(texts(out@) =~= so_far.push(word@));
        }
        i += 1;
    }
    assert(chars@.take(i as int) =~= text@);
    out
}

pub open spec fn is_blank(c: char) -> bool {
    c == ' ' || c == '\t' || c == '\n' || c == '\r'
}

/// The text is one of an array rather than of an object.
pub open spec fn is_array(text: Seq<char>) -> bool
    decreases text.len(),
{
    if text.len() == 0 {
        false
    } else if is_blank(text[0]) {
        is_array(text.drop_first())
    } else {
        text[0] == '['
    }
}

/// Whether the text is one of an array.
pub fn opens_array(text: &str) -> (r: bool)
    ensures
        r == is_array(text@),
{
    let chars = chars_of(text);
    let mut i: usize = 0;
    assert(text@.skip(0) =~= text@);
    while i < chars.len()
        invariant
            chars@ == text@,
            i <= chars@.len(),
            is_array(text@) == is_array(text@.skip(i as int)),
        decreases chars@.len() - i,
    {
        let c = chars[i];
        assert(text@.skip(i as int)[0] == c);
        if !(c == ' ' || c == '\t' || c == '\n' || c == '\r') {
            return c == '[';
        }
        assert(text@.skip(i as int).drop_first() =~= text@.skip(i + 1));
        i += 1;
    }
    false
}

// --- laws ---------------------------------------------------------------------

proof fn lemma_scan_append(a: Seq<char>, c: char)
    ensures
        scanned(a.push(c)) == step(scanned(a), c),
{
    assert(a.push(c).drop_last() =~= a);
}

proof fn lemma_scan_string(a: Seq<char>, b: Seq<char>)
    requires
        !scanned(a).escaped,
        !scanned(a).quoted,
        forall|i: int| 0 <= i < b.len() ==> #[trigger] b[i] != '"' && b[i] != '\\',
    ensures
        scanned(a + seq!['"'] + b) == (Scan {
            quoted: true,
            word: seq!['"'] + b,
            ..scanned(a)
        }),
    decreases b.len(),
{
    let all = a + seq!['"'] + b;
    if b.len() == 0 {
        assert(all =~= a.push('"'));
        lemma_scan_append(a, '"');
        assert(seq!['"'] + b =~= seq!['"']);
    } else {
        let few = b.drop_last();
        assert forall|i: int| 0 <= i < few.len() implies #[trigger] few[i] != '"' && few[i]
            != '\\' by {
            assert(few[i] == b[i]);
        }
        lemma_scan_string(a, few);
        assert(b[b.len() - 1] != '"' && b[b.len() - 1] != '\\');
        assert(all =~= (a + seq!['"'] + few).push(b.last()));
        lemma_scan_append(a + seq!['"'] + few, b.last());
        assert((seq!['"'] + few).push(b.last()) =~= seq!['"'] + b);
    }
}

/// A string with a colon behind it is the name of a field, where it stands in the object
/// itself, and of none where it stands deeper. A string without one is no name.
pub proof fn law_names_have_a_colon_behind(a: Seq<char>, b: Seq<char>)
    requires
        !scanned(a).escaped,
        !scanned(a).quoted,
        forall|i: int| 0 <= i < b.len() ==> #[trigger] b[i] != '"' && b[i] != '\\',
    ensures
        written_keys(a + seq!['"'] + b + seq!['"']) == written_keys(a),
        written_keys(a + seq!['"'] + b + seq!['"', ':']) == if scanned(a).depth == 1 {
            written_keys(a).push(seq!['"'] + b + seq!['"'])
        } else {
            written_keys(a)
        },
        !scanned(a + seq!['"'] + b + seq!['"', ':']).quoted,
        !scanned(a + seq!['"'] + b + seq!['"', ':']).escaped,
        scanned(a + seq!['"'] + b + seq!['"', ':']).depth == scanned(a).depth,
{
    let open = a + seq!['"'] + b;
    lemma_scan_string(a, b);
    lemma_scan_append(open, '"');
    lemma_scan_append(open.push('"'), ':');
    assert(a + seq!['"'] + b + seq!['"'] =~= open.push('"'));
    assert(a + seq!['"'] + b + seq!['"', ':'] =~= open.push('"').push(':'));
    assert((seq!['"'] + b).push('"') =~= seq!['"'] + b + seq!['"']);
}

/// Brackets lead a level in and out again; nothing else outside of strings changes where
/// a text stands.
pub proof fn law_brackets_are_levels(a: Seq<char>, c: char)
    requires
        !scanned(a).escaped,
        !scanned(a).quoted,
    ensures
        written_keys(seq![]) == Seq::<Seq<char>>::empty(),
        scanned(seq![]).depth == 0 && !scanned(seq![]).quoted && !scanned(seq![]).escaped,
        c == '{' || c == '[' ==> scanned(a.push(c)) == (Scan {
            depth: scanned(a).depth + 1,
            ..scanned(a)
        }),
        c == '}' || c == ']' ==> scanned(a.push(c)) == (Scan {
            depth: scanned(a).depth - 1,
            ..scanned(a)
        }),
        c != '{' && c != '[' && c != '}' && c != ']' && c != '"' && c != ':' ==> scanned(a.push(c))
            == scanned(a),
{
    lemma_scan_append(a, c);
}

/// Within a string nothing counts but the quote that ends it, and a backslash takes the
/// meaning from what follows it.
pub proof fn law_strings_are_passed_over(a: Seq<char>, c: char)
    requires
        scanned(a).quoted,
        !scanned(a).escaped,
    ensures
        written_keys(a.push(c)) == written_keys(a),
        scanned(a.push(c)).depth == scanned(a).depth,
        scanned(a.push(c)).quoted <==> c != '"',
        written_keys(a.push('\\').push(c)) == written_keys(a),
        scanned(a.push('\\').push(c)).depth == scanned(a).depth,
        scanned(a.push('\\').push(c)).quoted,
        !scanned(a.push('\\').push(c)).escaped,
{
    lemma_scan_append(a, c);
    lemma_scan_append(a, '\\');
    lemma_scan_append(a.push('\\'), c);
}

/// A text is one of an array exactly where its first character that is no blank opens
/// one.
pub proof fn law_arrays_open_with_a_bracket(front: Seq<char>, c: char, rest: Seq<char>)
    requires
        forall|i: int|
            0 <= i < front.len() ==> #[trigger] front[i] == ' ' || front[i] == '\t' || front[i]
                == '\n' || front[i] == '\r',
        c != ' ' && c != '\t' && c != '\n' && c != '\r',
    ensures
        is_array(front + seq![c] + rest) <==> c == '[',
        !is_array(front),
    decreases front.len(),
{
    let all = front + seq![c] + rest;
    if front.len() > 0 {
        let few = front.drop_first();
        assert(all[0] == front[0]);
        assert(all.drop_first() =~= few + seq![c] + rest);
        assert forall|i: int| 0 <= i < few.len() implies #[trigger] few[i] == ' ' || few[i] == '\t'
            || few[i] == '\n' || few[i] == '\r' by {
            assert(few[i] == front[i + 1]);
        }
        law_arrays_open_with_a_bracket(few, c, rest);
    } else {
        assert(all[0] == c);
    }
}

} // verus!
