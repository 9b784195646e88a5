//! A filter config as it is written, before anything in it is looked at: the JSON
//! shape alone. Unknown fields fail it, and so do fields written twice, so a slip
//! cannot silently disable enforcement.

use crate::json::{
    self, by_name, is_array, json_bool, json_items, json_lists, json_object, json_string,
    json_strings, named, pair_texts, written_keys, Named,
};
use crate::order::{lemma_lex_antisymmetric, lex};
use crate::text::{same, texts};
use vstd::prelude::*;
use vstd::utf8::{encode_utf8, encode_utf8_decode_utf8};

verus! {

/// Names and the texts of their values.
pub type Fields = Seq<(Seq<char>, Seq<char>)>;

/// `sni` and `allow` of a scope.
#[derive(Debug)]
pub struct RawScope {
    pub sni: Vec<String>,
    pub allow: Vec<String>,
}

#[derive(Debug)]
pub struct Raw {
    pub ula: Option<String>,
    /// The tenant table, by site id, in the order of the keys.
    pub sites: Vec<(String, Vec<String>)>,
    /// Named source bags for `@refs`, in the order of the names.
    pub groups: Vec<(String, Vec<String>)>,
    pub allow: Vec<String>,
    /// None = flat-list mode. An empty list is SNI mode with nothing claimed.
    pub scopes: Option<Vec<RawScope>>,
    /// The table is another filter's to carry.
    pub subscribe: bool,
}

pub struct RawScopeView {
    pub sni: Seq<Seq<char>>,
    pub allow: Seq<Seq<char>>,
}

pub struct RawView {
    pub ula: Option<Seq<char>>,
    pub sites: Seq<Named>,
    pub groups: Seq<Named>,
    pub allow: Seq<Seq<char>>,
    pub scopes: Option<Seq<RawScopeView>>,
    pub subscribe: bool,
}

impl View for RawScope {
    type V = RawScopeView;

    open spec fn view(&self) -> RawScopeView {
        RawScopeView { sni: texts(self.sni@), allow: texts(self.allow@) }
    }
}

pub open spec fn scope_views(v: Seq<RawScope>) -> Seq<RawScopeView> {
    v.map_values(|s: RawScope| s@)
}

impl View for Raw {
    type V = RawView;

    open spec fn view(&self) -> RawView {
        RawView {
            ula: match self.ula {
                Some(s) => Some(s@),
                None => None,
            },
            sites: named(self.sites@),
            groups: named(self.groups@),
            allow: texts(self.allow@),
            scopes: match self.scopes {
                Some(list) => Some(scope_views(list@)),
                None => None,
            },
            subscribe: self.subscribe,
        }
    }
}

// --- what a text reads as -----------------------------------------------------

/// The value of a field.
pub open spec fn field(fs: Fields, name: Seq<char>) -> Option<Seq<char>>
    decreases fs.len(),
{
    if fs.len() == 0 {
        None
    } else if fs[0].0 == name {
        Some(fs[0].1)
    } else {
        field(fs.drop_first(), name)
    }
}

pub open spec fn ticked(name: Seq<char>) -> Seq<char> {
    "`"@ + name + "`"@
}

pub open spec fn ticked_list(names: Seq<Seq<char>>) -> Seq<char>
    decreases names.len(),
{
    if names.len() == 0 {
        seq![]
    } else if names.len() == 1 {
        ticked(names[0])
    } else {
        ticked_list(names.drop_last()) + ", "@ + ticked(names.last())
    }
}

pub open spec fn unknown_text(name: Seq<char>, known: Seq<Seq<char>>) -> Seq<char> {
    "unknown field "@ + ticked(name) + ", expected "@ + if known.len() == 2 {
        ticked(known[0]) + " or "@ + ticked(known[1])
    } else {
        "one of "@ + ticked_list(known)
    }
}

pub open spec fn duplicate_text(name: Seq<char>) -> Seq<char> {
    "duplicate field "@ + ticked(name)
}

pub open spec fn config_fields() -> Seq<Seq<char>> {
    seq!["ula"@, "sites"@, "groups"@, "allow"@, "scopes"@, "subscribe"@]
}

pub open spec fn table_fields() -> Seq<Seq<char>> {
    seq!["ula"@, "sites"@, "groups"@]
}

pub open spec fn scope_fields() -> Seq<Seq<char>> {
    seq!["sni"@, "allow"@]
}

/// The names in quotes, read.
pub open spec fn names_read(keys: Seq<Seq<char>>) -> Result<Seq<Seq<char>>, Seq<char>>
    decreases keys.len(),
{
    if keys.len() == 0 {
        Ok(seq![])
    } else {
        match names_read(keys.drop_last()) {
            Err(e) => Err(e),
            Ok(head) => match json_string(keys.last()) {
                Err(e) => Err(e),
                Ok(None) => Err("key must be a string"@),
                Ok(Some(name)) => Ok(head.push(name)),
            },
        }
    }
}

/// The value that an object has for a name, as its text.
pub open spec fn value_in(map: Fields, name: Seq<char>) -> Seq<char> {
    match field(map, name) {
        Some(t) => t,
        None => seq![],
    }
}

/// What a text writes: fields in their order, and what is wrong with their number.
pub struct Written {
    pub fields: Fields,
    pub flaw: Option<Seq<char>>,
}

/// The fields that a text writes. An array stands for the fields in `order`: the
/// first `least` of them must be there, or it is `short`.
pub open spec fn fields_of(
    text: Seq<char>,
    order: Seq<Seq<char>>,
    least: int,
    short: Seq<char>,
) -> Result<Written, Seq<char>> {
    if is_array(text) {
        match json_items(text) {
            Err(e) => Err(e),
            Ok(items) => Ok(by_position(items, order, least, short)),
        }
    } else {
        match json_object(text) {
            Err(e) => Err(e),
            Ok(map) => match names_read(written_keys(text)) {
                Err(e) => Err(e),
                Ok(names) => Ok(
                    Written {
                        fields: names.map_values(|name: Seq<char>| (name, value_in(map, name))),
                        flaw: None,
                    },
                ),
            },
        }
    }
}

pub open spec fn by_position(
    items: Option<Seq<Seq<char>>>,
    order: Seq<Seq<char>>,
    least: int,
    short: Seq<char>,
) -> Written {
    let ts = match items {
        Some(ts) => ts,
        None => seq![],
    };
    Written {
        fields: Seq::new(
            if ts.len() < order.len() {
                ts.len()
            } else {
                order.len()
            },
            |i: int| (order[i], ts[i]),
        ),
        flaw: if ts.len() < least {
            Some(short)
        } else if ts.len() > order.len() {
            Some("trailing characters"@)
        } else {
            None
        },
    }
}

/// The field has been there before.
pub open spec fn repeats(fs: Fields, i: int) -> bool {
    exists|j: int| 0 <= j < i && (#[trigger] fs[j]).0 == fs[i].0
}

/// The field is there again further on. It fails there, and until then its value does
/// not matter.
pub open spec fn comes_again(fs: Fields, i: int) -> bool {
    exists|j: int| i < j < fs.len() && (#[trigger] fs[j]).0 == fs[i].0
}

/// What is wrong with a field that may not stand here.
pub open spec fn misplaced(fs: Fields, i: int, known: Seq<Seq<char>>) -> Option<Seq<char>> {
    if !known.contains(fs[i].0) {
        Some(unknown_text(fs[i].0, known))
    } else if repeats(fs, i) {
        Some(duplicate_text(fs[i].0))
    } else {
        None
    }
}

/// A scope with one more field.
pub open spec fn scope_put(s: RawScopeView, fs: Fields, i: int) -> Result<RawScopeView, Seq<char>> {
    match misplaced(fs, i, scope_fields()) {
        Some(e) => Err(e),
        None => if comes_again(fs, i) {
            Ok(s)
        } else {
            match json_strings(fs[i].1) {
                Err(e) => Err(e),
                Ok(list) => Ok(
                    if fs[i].0 == "sni"@ {
                        RawScopeView { sni: list, ..s }
                    } else {
                        RawScopeView { allow: list, ..s }
                    },
                ),
            }
        },
    }
}

/// The scope of the first `n` fields, or what is wrong with the first bad one.
pub open spec fn scope_upto(fs: Fields, n: int) -> Result<RawScopeView, Seq<char>>
    decreases n,
{
    if n <= 0 {
        Ok(RawScopeView { sni: seq![], allow: seq![] })
    } else {
        match scope_upto(fs, n - 1) {
            Err(e) => Err(e),
            Ok(s) => scope_put(s, fs, n - 1),
        }
    }
}

pub open spec fn scope_reads(t: Seq<char>) -> Result<RawScopeView, Seq<char>> {
    match fields_of(t, scope_fields(), 0, seq![]) {
        Err(e) => Err(e),
        Ok(w) => match scope_upto(w.fields, w.fields.len() as int) {
            Err(e) => Err(e),
            Ok(s) => match w.flaw {
                Some(e) => Err(e),
                None => Ok(s),
            },
        },
    }
}

/// The scopes in order, or what is wrong with the first bad one.
pub open spec fn scopes_read(ts: Seq<Seq<char>>) -> Result<Seq<RawScopeView>, Seq<char>>
    decreases ts.len(),
{
    if ts.len() == 0 {
        Ok(seq![])
    } else {
        match scopes_read(ts.drop_last()) {
            Err(e) => Err(e),
            Ok(head) => match scope_reads(ts.last()) {
                Err(e) => Err(e),
                Ok(s) => Ok(head.push(s)),
            },
        }
    }
}

/// The scopes that a value stands for: none for null.
pub open spec fn scopes_of(t: Seq<char>) -> Result<Option<Seq<RawScopeView>>, Seq<char>> {
    match json_items(t) {
        Err(e) => Err(e),
        Ok(None) => Ok(None),
        Ok(Some(ts)) => match scopes_read(ts) {
            Err(e) => Err(e),
            Ok(list) => Ok(Some(list)),
        },
    }
}

/// A config with one more field.
pub open spec fn put(raw: RawView, fs: Fields, i: int, known: Seq<Seq<char>>) -> Result<
    RawView,
    Seq<char>,
> {
    let name = fs[i].0;
    let t = fs[i].1;
    match misplaced(fs, i, known) {
        Some(e) => Err(e),
        None => if comes_again(fs, i) {
            Ok(raw)
        } else if name == "ula"@ {
            match json_string(t) {
                Err(e) => Err(e),
                Ok(ula) => Ok(RawView { ula, ..raw }),
            }
        } else if name == "sites"@ {
            match json_lists(t) {
                Err(e) => Err(e),
                Ok(sites) => Ok(RawView { sites, ..raw }),
            }
        } else if name == "groups"@ {
            match json_lists(t) {
                Err(e) => Err(e),
                Ok(groups) => Ok(RawView { groups, ..raw }),
            }
        } else if name == "allow"@ {
            match json_strings(t) {
                Err(e) => Err(e),
                Ok(allow) => Ok(RawView { allow, ..raw }),
            }
        } else if name == "scopes"@ {
            match scopes_of(t) {
                Err(e) => Err(e),
                Ok(scopes) => Ok(RawView { scopes, ..raw }),
            }
        } else {
            match json_bool(t) {
                Err(e) => Err(e),
                Ok(subscribe) => Ok(RawView { subscribe, ..raw }),
            }
        },
    }
}

/// The config of the first `n` fields, or what is wrong with the first bad one.
pub open spec fn upto(fs: Fields, n: int, known: Seq<Seq<char>>) -> Result<RawView, Seq<char>>
    decreases n,
{
    if n <= 0 {
        Ok(
            RawView {
                ula: None,
                sites: seq![],
                groups: seq![],
                allow: seq![],
                scopes: None,
                subscribe: false,
            },
        )
    } else {
        match upto(fs, n - 1, known) {
            Err(e) => Err(e),
            Ok(raw) => put(raw, fs, n - 1, known),
        }
    }
}

/// What a text says with these fields, or what is wrong first: that it is neither an
/// object nor an array, then a field, in the order in which they are written, then the
/// length of an array.
pub open spec fn read_as(
    text: Seq<char>,
    known: Seq<Seq<char>>,
    order: Seq<Seq<char>>,
    least: int,
    short: Seq<char>,
) -> Result<RawView, Seq<char>> {
    match fields_of(text, order, least, short) {
        Err(e) => Err(e),
        Ok(w) => match upto(w.fields, w.fields.len() as int, known) {
            Err(e) => Err(e),
            Ok(raw) => match w.flaw {
                Some(e) => Err(e),
                None => Ok(raw),
            },
        },
    }
}

/// What the config of a filter says. As an array it is the rules, both of them.
pub open spec fn config_read(text: Seq<char>) -> Result<RawView, Seq<char>> {
    read_as(text, config_fields(), seq!["allow"@, "scopes"@], 2, "invalid length 1"@)
}

/// What the config of a carrier says.
pub open spec fn table_read(text: Seq<char>) -> Result<RawView, Seq<char>> {
    read_as(text, table_fields(), table_fields(), 1, "invalid length 0"@)
}

// --- reading ------------------------------------------------------------------

/// The value of a field of an object.
pub fn value_of<'a>(fs: &'a [(String, String)], name: &str) -> (r: Option<&'a String>)
    ensures
        match r {
            Some(t) => field(pair_texts(fs@), name@) == Some(t@),
            None => field(pair_texts(fs@), name@) is None,
        },
{
    let ghost all = pair_texts(fs@);
    let mut i: usize = 0;
    assert(all.skip(0) =~= all);
    while i < fs.len()
        invariant
            i <= fs@.len(),
            all == pair_texts(fs@),
            field(all, name@) == field(all.skip(i as int), name@),
        decreases fs@.len() - i,
    {
        assert(all.skip(i as int)[0] == (fs@[i as int].0@, fs@[i as int].1@));
        if same(&fs[i].0, name) {
            return Some(&fs[i].1);
        }
        assert(all.skip(i as int).drop_first() =~= all.skip(i + 1));
        i += 1;
    }
    None
}

/// The characters of names.
pub open spec fn words(ks: Seq<&str>) -> Seq<Seq<char>> {
    ks.map_values(|k: &str| k@)
}

fn one_of(name: &str, known: &[&str]) -> (r: bool)
    ensures
        r == words(known@).contains(name@),
{
    let ghost names = words(known@);
    let mut k: usize = 0;
    while k < known.len()
        invariant
            k <= known@.len(),
            names == words(known@),
            forall|j: int| 0 <= j < k ==> #[trigger] names[j] != name@,
        decreases known@.len() - k,
    {
        assert(names[k as int] == known@[k as int]@);
        if same(name, known[k]) {
            return true;
        }
        k += 1;
    }
    false
}

fn tick(out: &mut String, name: &str)
    ensures
        final(out)@ == old(out)@ + ticked(name@),
{
    let ghost before = out@;
    out.append("`");
    out.append(name);
    out.append("`");
    assert(out@ =~= before + ticked(name@));
}

fn unknown_message(name: &str, known: &[&str]) -> (r: String)
    ensures
        r@ == unknown_text(name@, words(known@)),
{
    let ghost all = words(known@);
    let mut out = String::new();
    out.append("unknown field ");
    tick(&mut out, name);
    out.append(", expected ");
    let ghost front = "unknown field "@ + ticked(name@) + ", expected "@;
    assert(out@ =~= front);
    if known.len() == 2 {
        assert(all[0] == known@[0]@ && all[1] == known@[1]@);
        tick(&mut out, known[0]);
        out.append(" or ");
        tick(&mut out, known[1]);
        assert(out@ =~= unknown_text(name@, all));
        return out;
    }
    out.append("one of ");
    let ghost lead = out@;
    let mut i: usize = 0;
    assert(out@ =~= lead + ticked_list(all.take(0)));
    while i < known.len()
        invariant
            i <= known@.len(),
            all == words(known@),
            out@ == lead + ticked_list(all.take(i as int)),
        decreases known@.len() - i,
    {
        let ghost more = all.take(i + 1);
        let ghost so_far = all.take(i as int);
        assert(more.drop_last() =~= so_far);
        assert(more.last() == known@[i as int]@);
        if i > 0 {
            out.append(", ");
        }
        tick(&mut out, known[i]);
        assert(out@ =~= lead + ticked_list(more));
        i += 1;
    }
    assert(all.take(i as int) =~= all);
    assert(out@ =~= unknown_text(name@, all));
    out
}

fn duplicate_message(name: &str) -> (r: String)
    ensures
        r@ == duplicate_text(name@),
{
    let mut out = String::new();
    out.append("duplicate field ");
    tick(&mut out, name);
    assert(out@ =~= duplicate_text(name@));
    out
}

/// Read the names in quotes.
fn read_names(keys: &[String]) -> (r: Result<Vec<String>, String>)
    ensures
        match r {
            Ok(names) => names_read(texts(keys@)) == Ok::<Seq<Seq<char>>, Seq<char>>(texts(names@)),
            Err(e) => names_read(texts(keys@)) == Err::<Seq<Seq<char>>, Seq<char>>(e@),
        },
{
    let ghost all = texts(keys@);
    let mut out: Vec<String> = Vec::new();
    let mut i: usize = 0;
    assert(texts(out@) =~= seq![]);
    while i < keys.len()
        invariant
            i <= keys@.len(),
            all == texts(keys@),
            names_read(all.take(i as int)) == Ok::<Seq<Seq<char>>, Seq<char>>(texts(out@)),
        decreases keys@.len() - i,
    {
        let ghost so_far = texts(out@);
        assert(all.take(i + 1).drop_last() =~= all.take(i as int));
        assert(all.take(i + 1).last() == keys@[i as int]@);
        match json::string(&keys[i]) {
            Ok(Some(name)) => {
                out.push(name);
                assert(texts(out@) =~= so_far.push(name@));
            },
            Ok(None) => {
                proof {
                    lemma_names_prefix(all, i + 1);
                }
                return Err(String::from_str("key must be a string"));
            },
            Err(e) => {
                proof {
                    lemma_names_prefix(all, i + 1);
                }
                return Err(e);
            },
        }
        i += 1;
    }
    assert(all.take(i as int) =~= all);
    Ok(out)
}

proof fn lemma_names_prefix(keys: Seq<Seq<char>>, n: int)
    requires
        0 <= n <= keys.len(),
        names_read(keys.take(n)) is Err,
    ensures
        names_read(keys) == names_read(keys.take(n)),
    decreases keys.len(),
{
    if n == keys.len() {
        assert(keys.take(n) =~= keys);
    } else {
        assert(keys.drop_last().take(n) =~= keys.take(n));
        lemma_names_prefix(keys.drop_last(), n);
    }
}

/// The fields of an object in the order of these names.
pub fn arranged(map: &[(String, String)], names: Vec<String>) -> (r: Vec<(String, String)>)
    ensures
        pair_texts(r@) == texts(names@).map_values(
            |name: Seq<char>| (name, value_in(pair_texts(map@), name)),
        ),
{
    let mut out: Vec<(String, String)> = Vec::new();
    let mut i: usize = 0;
    while i < names.len()
        invariant
            i <= names@.len(),
            out@.len() == i,
            forall|j: int|
                0 <= j < i ==> (#[trigger] out@[j]).0@ == names@[j]@ && out@[j].1@ == value_in(
                    pair_texts(map@),
                    names@[j]@,
                ),
        decreases names@.len() - i,
    {
        let value = match value_of(map, &names[i]) {
            Some(t) => t.clone(),
            None => {
                let none = String::new();
                assert(none@ =~= seq![]);
                none
            },
        };
        out.push((names[i].clone(), value));
        i += 1;
    }
    assert(pair_texts(out@) =~= texts(names@).map_values(
        |name: Seq<char>| (name, value_in(pair_texts(map@), name)),
    ));
    out
}

/// The items of an array under these names.
pub fn placed(items: Option<Vec<String>>, order: &[&str], least: usize, short: &'static str) -> (r: (
    Vec<(String, String)>,
    Option<&'static str>,
))
    ensures
        ({
            let w = by_position(
                match items {
                    Some(list) => Some(texts(list@)),
                    None => None,
                },
                words(order@),
                least as int,
                short@,
            );
            &&& pair_texts(r.0@) == w.fields
            &&& match r.1 {
                Some(e) => w.flaw == Some(e@),
                None => w.flaw is None,
            }
        }),
{
    let list = match items {
        Some(list) => list,
        None => {
            let none: Vec<String> = Vec::new();
            assert(texts(none@) =~= seq![]);
            none
        },
    };
    let mut out: Vec<(String, String)> = Vec::new();
    let mut i: usize = 0;
    while i < list.len() && i < order.len()
        invariant
            i <= list@.len(),
            i <= order@.len(),
            out@.len() == i,
            forall|j: int|
                0 <= j < i ==> (#[trigger] out@[j]).0@ == order@[j]@ && out@[j].1@ == list@[j]@,
        decreases list@.len() - i,
    {
        out.push((String::from_str(order[i]), list[i].clone()));
        i += 1;
    }
    proof {
        let w = by_position(Some(texts(list@)), words(order@), least as int, short@);
        assert(pair_texts(out@) =~= w.fields);
    }
    let flaw = if list.len() < least {
        Some(short)
    } else if list.len() > order.len() {
        Some("trailing characters")
    } else {
        None
    };
    (out, flaw)
}

/// The fields that a text writes.
fn fields(text: &str, order: &[&str], least: usize, short: &'static str) -> (r: Result<
    (Vec<(String, String)>, Option<&'static str>),
    String,
>)
    ensures
        match r {
            Ok((fs, flaw)) => {
                &&& fields_of(text@, words(order@), least as int, short@) matches Ok(w)
                &&& pair_texts(fs@) == w.fields
                &&& match flaw {
                    Some(e) => w.flaw == Some(e@),
                    None => w.flaw is None,
                }
            },
            Err(e) => fields_of(text@, words(order@), least as int, short@) == Err::<
                Written,
                Seq<char>,
            >(e@),
        },
{
    if json::opens_array(text) {
        match json::items(text) {
            Ok(items) => Ok(placed(items, order, least, short)),
            Err(e) => Err(e),
        }
    } else {
        match json::object(text) {
            Ok(map) => match read_names(&json::keys(text)) {
                Ok(names) => Ok((arranged(&map, names), None)),
                Err(e) => Err(e),
            },
            Err(e) => Err(e),
        }
    }
}

/// Whether a field may stand here.
fn check_place(fs: &[(String, String)], i: usize, known: &[&str]) -> (r: Result<(), String>)
    requires
        i < fs@.len(),
    ensures
        match r {
            Ok(_) => misplaced(pair_texts(fs@), i as int, words(known@)) is None,
            Err(e) => misplaced(pair_texts(fs@), i as int, words(known@)) == Some(e@),
        },
{
    let ghost all = pair_texts(fs@);
    assert(all[i as int].0 == fs@[i as int].0@);
    if !one_of(&fs[i].0, known) {
        return Err(unknown_message(&fs[i].0, known));
    }
    let mut j: usize = 0;
    while j < i
        invariant
            j <= i < fs@.len(),
            all == pair_texts(fs@),
            words(known@).contains(all[i as int].0),
            forall|k: int| 0 <= k < j ==> (#[trigger] all[k]).0 != all[i as int].0,
        decreases i - j,
    {
        assert(all[j as int].0 == fs@[j as int].0@ && all[i as int].0 == fs@[i as int].0@);
        if same(&fs[j].0, &fs[i].0) {
            assert(repeats(all, i as int));
            return Err(duplicate_message(&fs[i].0));
        }
        j += 1;
    }
    assert(!repeats(all, i as int));
    Ok(())
}

/// Whether the field is there again further on.
fn is_again(fs: &[(String, String)], i: usize) -> (r: bool)
    requires
        i < fs@.len(),
    ensures
        r == comes_again(pair_texts(fs@), i as int),
{
    let ghost all = pair_texts(fs@);
    let n = fs.len();
    let mut j: usize = i + 1;
    while j < n
        invariant
            n == fs@.len(),
            i < j <= n,
            all == pair_texts(fs@),
            forall|k: int| i < k < j ==> (#[trigger] all[k]).0 != all[i as int].0,
        decreases fs@.len() - j,
    {
        assert(all[j as int].0 == fs@[j as int].0@ && all[i as int].0 == fs@[i as int].0@);
        if same(&fs[j].0, &fs[i].0) {
            return true;
        }
        j += 1;
    }
    false
}

fn put_scope_field(s: RawScope, fs: &[(String, String)], i: usize) -> (r: Result<RawScope, String>)
    requires
        i < fs@.len(),
    ensures
        match r {
            Ok(more) => scope_put(s@, pair_texts(fs@), i as int) == Ok::<RawScopeView, Seq<char>>(
                more@,
            ),
            Err(e) => scope_put(s@, pair_texts(fs@), i as int) == Err::<RawScopeView, Seq<char>>(
                e@,
            ),
        },
{
    let known = ["sni", "allow"];
    assert(words(known@) =~= scope_fields());
    assert(pair_texts(fs@)[i as int] == (fs@[i as int].0@, fs@[i as int].1@));
    if let Err(e) = check_place(fs, i, &known) {
        return Err(e);
    }
    if is_again(fs, i) {
        return Ok(s);
    }
    match json::strings(&fs[i].1) {
        Ok(list) => if same(&fs[i].0, "sni") {
            Ok(RawScope { sni: list, allow: s.allow })
        } else {
            Ok(RawScope { sni: s.sni, allow: list })
        },
        Err(e) => Err(e),
    }
}

fn read_scope(text: &str) -> (r: Result<RawScope, String>)
    ensures
        match r {
            Ok(s) => scope_reads(text@) == Ok::<RawScopeView, Seq<char>>(s@),
            Err(e) => scope_reads(text@) == Err::<RawScopeView, Seq<char>>(e@),
        },
{
    let order = ["sni", "allow"];
    assert(words(order@) =~= scope_fields());
    proof {
        reveal_strlit("");
        assert(""@ =~= seq![]);
    }
    let (fs, flaw) = match fields(text, &order, 0, "") {
        Ok(found) => found,
        Err(e) => {
            return Err(e);
        },
    };
    let ghost all = pair_texts(fs@);
    let mut s = RawScope { sni: Vec::new(), allow: Vec::new() };
    assert(texts(s.sni@) =~= seq![] && texts(s.allow@) =~= seq![]);
    let mut i: usize = 0;
    while i < fs.len()
        invariant
            i <= fs@.len(),
            all == pair_texts(fs@),
            fields_of(text@, scope_fields(), 0, seq![]) matches Ok(w) && w.fields == all,
            scope_upto(all, i as int) == Ok::<RawScopeView, Seq<char>>(s@),
        decreases fs@.len() - i,
    {
        match put_scope_field(s, &fs, i) {
            Ok(more) => {
                s = more;
            },
            Err(e) => {
                proof {
                    lemma_scope_stops(all, i + 1, all.len() as int);
                }
                return Err(e);
            },
        }
        i += 1;
    }
    match flaw {
        Some(e) => Err(String::from_str(e)),
        None => Ok(s),
    }
}

proof fn lemma_scope_stops(fs: Fields, n: int, m: int)
    requires
        0 <= n <= m,
        scope_upto(fs, n) is Err,
    ensures
        scope_upto(fs, m) == scope_upto(fs, n),
    decreases m,
{
    if n < m {
        lemma_scope_stops(fs, n, m - 1);
    }
}

fn read_scopes(text: &str) -> (r: Result<Option<Vec<RawScope>>, String>)
    ensures
        match r {
            Ok(Some(list)) => scopes_of(text@) == Ok::<
                Option<Seq<RawScopeView>>,
                Seq<char>,
            >(Some(scope_views(list@))),
            Ok(None) => scopes_of(text@) == Ok::<
                Option<Seq<RawScopeView>>,
                Seq<char>,
            >(None),
            Err(e) => scopes_of(text@) == Err::<Option<Seq<RawScopeView>>, Seq<char>>(
                e@,
            ),
        },
{
    let list = match json::items(text) {
        Ok(Some(list)) => list,
        Ok(None) => {
            return Ok(None);
        },
        Err(e) => {
            return Err(e);
        },
    };
    let ghost all = texts(list@);
    let mut out: Vec<RawScope> = Vec::new();
    let mut i: usize = 0;
    assert(scope_views(out@) =~= seq![]);
    while i < list.len()
        invariant
            i <= list@.len(),
            all == texts(list@),
            json_items(text@) == Ok::<Option<Seq<Seq<char>>>, Seq<char>>(Some(all)),
            scopes_read(all.take(i as int)) == Ok::<Seq<RawScopeView>, Seq<char>>(
                scope_views(out@),
            ),
        decreases list@.len() - i,
    {
        assert(all.take(i + 1).drop_last() =~= all.take(i as int));
        assert(all.take(i + 1).last() == list@[i as int]@);
        let ghost before = scope_views(out@);
        match read_scope(&list[i]) {
            Ok(s) => {
                out.push(s);
                assert(scope_views(out@) =~= before.push(s@));
            },
            Err(e) => {
                proof {
                    lemma_scopes_prefix(all, i + 1);
                }
                return Err(e);
            },
        }
        i += 1;
    }
    assert(all.take(i as int) =~= all);
    Ok(Some(out))
}

proof fn lemma_scopes_prefix(ts: Seq<Seq<char>>, n: int)
    requires
        0 <= n <= ts.len(),
        scopes_read(ts.take(n)) is Err,
    ensures
        scopes_read(ts) == scopes_read(ts.take(n)),
    decreases ts.len(),
{
    if n == ts.len() {
        assert(ts.take(n) =~= ts);
    } else {
        assert(ts.drop_last().take(n) =~= ts.take(n));
        lemma_scopes_prefix(ts.drop_last(), n);
    }
}

/// A config with one more field.
fn put_field(raw: Raw, fs: &[(String, String)], i: usize, known: &[&str]) -> (r: Result<Raw, String>)
    requires
        i < fs@.len(),
        by_name(raw@.sites),
        by_name(raw@.groups),
    ensures
        match r {
            Ok(more) => {
                &&& put(raw@, pair_texts(fs@), i as int, words(known@)) == Ok::<RawView, Seq<char>>(
                    more@,
                )
                &&& by_name(more@.sites)
                &&& by_name(more@.groups)
            },
            Err(e) => put(raw@, pair_texts(fs@), i as int, words(known@)) == Err::<
                RawView,
                Seq<char>,
            >(e@),
        },
{
    let mut raw = raw;
    let name = &fs[i].0;
    let text = &fs[i].1;
    assert(pair_texts(fs@)[i as int] == (name@, text@));
    if let Err(e) = check_place(fs, i, known) {
        return Err(e);
    }
    if is_again(fs, i) {
        return Ok(raw);
    }
    if same(name, "ula") {
        match json::string(text) {
            Ok(v) => {
                raw.ula = v;
            },
            Err(e) => {
                return Err(e);
            },
        }
    } else if same(name, "sites") {
        match json::lists(text) {
            Ok(v) => {
                raw.sites = v;
            },
            Err(e) => {
                return Err(e);
            },
        }
    } else if same(name, "groups") {
        match json::lists(text) {
            Ok(v) => {
                raw.groups = v;
            },
            Err(e) => {
                return Err(e);
            },
        }
    } else if same(name, "allow") {
        match json::strings(text) {
            Ok(v) => {
                raw.allow = v;
            },
            Err(e) => {
                return Err(e);
            },
        }
    } else if same(name, "scopes") {
        match read_scopes(text) {
            Ok(v) => {
                raw.scopes = v;
            },
            Err(e) => {
                return Err(e);
            },
        }
    } else {
        match json::boolean(text) {
            Ok(v) => {
                raw.subscribe = v;
            },
            Err(e) => {
                return Err(e);
            },
        }
    }
    Ok(raw)
}

proof fn lemma_stops(fs: Fields, n: int, m: int, known: Seq<Seq<char>>)
    requires
        0 <= n <= m,
        upto(fs, n, known) is Err,
    ensures
        upto(fs, m, known) == upto(fs, n, known),
    decreases m,
{
    if n < m {
        lemma_stops(fs, n, m - 1, known);
    }
}

/// Read a config with these fields.
fn read_with(text: &str, known: &[&str], order: &[&str], least: usize, short: &'static str) -> (r:
    Result<Raw, String>)
    ensures
        match r {
            Ok(raw) => {
                &&& read_as(text@, words(known@), words(order@), least as int, short@) == Ok::<
                    RawView,
                    Seq<char>,
                >(raw@)
                &&& by_name(raw@.sites)
                &&& by_name(raw@.groups)
            },
            Err(e) => read_as(text@, words(known@), words(order@), least as int, short@) == Err::<
                RawView,
                Seq<char>,
            >(e@),
        },
{
    let (fs, flaw) = match fields(text, order, least, short) {
        Ok(found) => found,
        Err(e) => {
            return Err(e);
        },
    };
    let ghost all = pair_texts(fs@);
    let mut raw = Raw {
        ula: None,
        sites: Vec::new(),
        groups: Vec::new(),
        allow: Vec::new(),
        scopes: None,
        subscribe: false,
    };
    assert(named(raw.sites@) =~= seq![] && named(raw.groups@) =~= seq![]);
    assert(texts(raw.allow@) =~= seq![]);
    let mut i: usize = 0;
    while i < fs.len()
        invariant
            i <= fs@.len(),
            all == pair_texts(fs@),
            fields_of(text@, words(order@), least as int, short@) matches Ok(w) && w.fields == all,
            upto(all, i as int, words(known@)) == Ok::<RawView, Seq<char>>(raw@),
            by_name(raw@.sites),
            by_name(raw@.groups),
        decreases fs@.len() - i,
    {
        match put_field(raw, &fs, i, known) {
            Ok(more) => {
                raw = more;
            },
            Err(e) => {
                proof {
                    lemma_stops(all, i + 1, all.len() as int, words(known@));
                }
                return Err(e);
            },
        }
        i += 1;
    }
    match flaw {
        Some(e) => Err(String::from_str(e)),
        None => Ok(raw),
    }
}

/// Read the config of a filter.
pub fn read(text: &str) -> (r: Result<Raw, String>)
    ensures
        match r {
            Ok(raw) => {
                &&& config_read(text@) == Ok::<RawView, Seq<char>>(raw@)
                &&& by_name(raw@.sites)
                &&& by_name(raw@.groups)
            },
            Err(e) => config_read(text@) == Err::<RawView, Seq<char>>(e@),
        },
{
    let known = ["ula", "sites", "groups", "allow", "scopes", "subscribe"];
    let order = ["allow", "scopes"];
    assert(words(known@) =~= config_fields());
    assert(words(order@) =~= seq!["allow"@, "scopes"@]);
    read_with(text, &known, &order, 2, "invalid length 1")
}

/// Read the config of a carrier: the table, and no rules.
pub fn read_table(text: &str) -> (r: Result<Raw, String>)
    ensures
        match r {
            Ok(raw) => {
                &&& table_read(text@) == Ok::<RawView, Seq<char>>(raw@)
                &&& by_name(raw@.sites)
                &&& by_name(raw@.groups)
            },
            Err(e) => table_read(text@) == Err::<RawView, Seq<char>>(e@),
        },
{
    let known = ["ula", "sites", "groups"];
    assert(words(known@) =~= table_fields());
    read_with(text, &known, &known, 1, "invalid length 0")
}

// --- laws ---------------------------------------------------------------------

/// The same names with the same lists are the same, in whatever order they were
/// written.
pub proof fn law_names_stand_in_one_order(a: Seq<Named>, b: Seq<Named>)
    requires
        by_name(a),
        by_name(b),
        forall|x: Named| #[trigger] a.contains(x) <==> b.contains(x),
    ensures
        a == b,
    decreases a.len(),
{
    if a.len() == 0 || b.len() == 0 {
        if a.len() > 0 {
            assert(a.contains(a[0]));
        }
        if b.len() > 0 {
            assert(b.contains(b[0]));
            assert(a.contains(b[0]));
        }
        assert(a =~= b);
    } else {
        let x = a.last();
        let y = b.last();
        assert(a.contains(x) && b.contains(y));
        assert(a.contains(y));
        let k = choose|k: int| 0 <= k < b.len() && b[k] == x;
        let j = choose|j: int| 0 <= j < a.len() && a[j] == y;
        // Each of the two last is no later than the other.
        if k < b.len() - 1 && j < a.len() - 1 {
            lemma_lex_antisymmetric(encode_utf8(x.0), encode_utf8(y.0));
            encode_utf8_decode_utf8(x.0);
            encode_utf8_decode_utf8(y.0);
        }
        assert(x == y);
        let c = a.drop_last();
        let d = b.drop_last();
        assert forall|z: Named| #[trigger] c.contains(z) <==> d.contains(z) by {
            if c.contains(z) {
                let i = choose|i: int| 0 <= i < c.len() && c[i] == z;
                assert(a[i] == z && a.contains(z));
                let l = choose|l: int| 0 <= l < b.len() && b[l] == z;
                assert(a[i].0 != a[a.len() - 1].0);
                assert(d[l] == z);
            }
            if d.contains(z) {
                let i = choose|i: int| 0 <= i < d.len() && d[i] == z;
                assert(b[i] == z && b.contains(z));
                assert(a.contains(z));
                let l = choose|l: int| 0 <= l < a.len() && a[l] == z;
                assert(b[i].0 != b[b.len() - 1].0);
                assert(c[l] == z);
            }
        }
        assert(by_name(c)) by {
            assert forall|i: int, l: int|
                #![trigger c[i], c[l]]
                0 <= i < l < c.len() implies c[i].0 != c[l].0 && lex(
                encode_utf8(c[i].0),
                encode_utf8(c[l].0),
            ) by {
                assert(a[i] == c[i] && a[l] == c[l]);
            }
        }
        assert(by_name(d)) by {
            assert forall|i: int, l: int|
                #![trigger d[i], d[l]]
                0 <= i < l < d.len() implies d[i].0 != d[l].0 && lex(
                encode_utf8(d[i].0),
                encode_utf8(d[l].0),
            ) by {
                assert(b[i] == d[i] && b[l] == d[l]);
            }
        }
        law_names_stand_in_one_order(c, d);
        assert(a =~= c.push(x));
        assert(b =~= d.push(x));
    }
}

proof fn lemma_names_differ()
    ensures
        "ula"@ != "sites"@,
        "ula"@ != "groups"@,
        "ula"@ != "allow"@,
        "ula"@ != "scopes"@,
        "ula"@ != "subscribe"@,
        "sites"@ != "groups"@,
        "sites"@ != "allow"@,
        "sites"@ != "scopes"@,
        "sites"@ != "subscribe"@,
        "groups"@ != "allow"@,
        "groups"@ != "scopes"@,
        "groups"@ != "subscribe"@,
        "allow"@ != "scopes"@,
        "allow"@ != "subscribe"@,
        "scopes"@ != "subscribe"@,
        "sni"@ != "allow"@,
{
    reveal_strlit("ula");
    reveal_strlit("sites");
    reveal_strlit("groups");
    reveal_strlit("allow");
    reveal_strlit("scopes");
    reveal_strlit("subscribe");
    reveal_strlit("sni");
    assert("ula"@.len() == 3 && "sites"@.len() == 5 && "groups"@.len() == 6 && "allow"@.len() == 5
        && "scopes"@.len() == 6 && "subscribe"@.len() == 9 && "sni"@.len() == 3);
    assert("sites"@[0] != "allow"@[0]);
    assert("groups"@[0] != "scopes"@[0]);
}

/// What a config has where no field says otherwise.
pub open spec fn says_nothing_of(raw: RawView, name: Seq<char>) -> bool {
    &&& name == "ula"@ ==> raw.ula is None
    &&& name == "sites"@ ==> raw.sites.len() == 0
    &&& name == "groups"@ ==> raw.groups.len() == 0
    &&& name == "allow"@ ==> raw.allow.len() == 0
    &&& name == "scopes"@ ==> raw.scopes is None
    &&& name == "subscribe"@ ==> !raw.subscribe
}

/// What a config has where a field with this name says so.
pub open spec fn says(raw: RawView, name: Seq<char>, value: Seq<char>) -> bool {
    &&& name == "ula"@ ==> json_string(value) == Ok::<Option<Seq<char>>, Seq<char>>(raw.ula)
    &&& name == "sites"@ ==> json_lists(value) == Ok::<Seq<Named>, Seq<char>>(raw.sites)
    &&& name == "groups"@ ==> json_lists(value) == Ok::<Seq<Named>, Seq<char>>(raw.groups)
    &&& name == "allow"@ ==> json_strings(value) == Ok::<Seq<Seq<char>>, Seq<char>>(raw.allow)
    &&& name == "scopes"@ ==> scopes_of(value) == Ok::<Option<Seq<RawScopeView>>, Seq<char>>(
        raw.scopes,
    )
    &&& name == "subscribe"@ ==> json_bool(value) == Ok::<bool, Seq<char>>(raw.subscribe)
}

/// The value reads as what a field with this name holds.
pub open spec fn reads_for(name: Seq<char>, value: Seq<char>) -> bool {
    &&& name == "ula"@ ==> json_string(value) is Ok
    &&& name == "sites"@ ==> json_lists(value) is Ok
    &&& name == "groups"@ ==> json_lists(value) is Ok
    &&& name == "allow"@ ==> json_strings(value) is Ok
    &&& name == "scopes"@ ==> scopes_of(value) is Ok
    &&& name == "subscribe"@ ==> json_bool(value) is Ok
}

pub open spec fn none_twice(fs: Fields) -> bool {
    forall|i: int, j: int|
        #![trigger fs[i], fs[j]]
        0 <= i < j < fs.len() ==> fs[i].0 != fs[j].0
}

proof fn lemma_known_names(name: Seq<char>)
    ensures
        config_fields().contains(name) <==> name == "ula"@ || name == "sites"@ || name == "groups"@
            || name == "allow"@ || name == "scopes"@ || name == "subscribe"@,
        table_fields().contains(name) <==> name == "ula"@ || name == "sites"@ || name == "groups"@,
        scope_fields().contains(name) <==> name == "sni"@ || name == "allow"@,
{
    let c = config_fields();
    let t = table_fields();
    let s = scope_fields();
    assert(c[0] == "ula"@ && c[1] == "sites"@ && c[2] == "groups"@ && c[3] == "allow"@ && c[4]
        == "scopes"@ && c[5] == "subscribe"@);
    assert(t[0] == "ula"@ && t[1] == "sites"@ && t[2] == "groups"@);
    assert(s[0] == "sni"@ && s[1] == "allow"@);
}

proof fn lemma_upto_placed(fs: Fields, n: int, known: Seq<Seq<char>>)
    requires
        0 <= n <= fs.len(),
        upto(fs, n, known) is Ok,
    ensures
        forall|i: int|
            #![trigger fs[i]]
            0 <= i < n ==> known.contains(fs[i].0) && !repeats(fs, i),
    decreases n,
{
    if n > 0 {
        lemma_upto_placed(fs, n - 1, known);
        assert(misplaced(fs, n - 1, known) is None);
    }
}

proof fn lemma_upto_says(fs: Fields, n: int, known: Seq<Seq<char>>, name: Seq<char>)
    requires
        0 <= n <= fs.len(),
        none_twice(fs),
        upto(fs, n, known) is Ok,
        forall|w: Seq<char>| #[trigger] known.contains(w) ==> config_fields().contains(w),
    ensures
        forall|i: int|
            0 <= i < n ==> says(upto(fs, n, known)->Ok_0, (#[trigger] fs[i]).0, fs[i].1),
        (forall|i: int| 0 <= i < n ==> (#[trigger] fs[i]).0 != name) ==> says_nothing_of(
            upto(fs, n, known)->Ok_0,
            name,
        ),
    decreases n,
{
    lemma_names_differ();
    if n > 0 {
        lemma_upto_says(fs, n - 1, known, name);
        let k = n - 1;
        let raw = upto(fs, n, known)->Ok_0;
        let before = upto(fs, k, known)->Ok_0;
        assert(misplaced(fs, k, known) is None);
        assert(known.contains(fs[k].0));
        lemma_known_names(fs[k].0);
        if comes_again(fs, k) {
            let j = choose|j: int| k < j < fs.len() && (#[trigger] fs[j]).0 == fs[k].0;
            assert(fs[k].0 != fs[j].0);
        }
        assert(says(raw, fs[k].0, fs[k].1));
        assert forall|i: int| 0 <= i < n implies says(raw, (#[trigger] fs[i]).0, fs[i].1) by {
            if i < k {
                assert(says(before, fs[i].0, fs[i].1));
                assert(fs[i].0 != fs[k].0);
            }
        }
    }
}

proof fn lemma_upto_reads(fs: Fields, n: int, known: Seq<Seq<char>>)
    requires
        0 <= n <= fs.len(),
        none_twice(fs),
        forall|i: int|
            #![trigger fs[i]]
            0 <= i < fs.len() ==> known.contains(fs[i].0) && reads_for(fs[i].0, fs[i].1),
        forall|w: Seq<char>| #[trigger] known.contains(w) ==> config_fields().contains(w),
    ensures
        upto(fs, n, known) is Ok,
    decreases n,
{
    if n > 0 {
        let k = n - 1;
        lemma_upto_reads(fs, k, known);
        assert(known.contains(fs[k].0) && reads_for(fs[k].0, fs[k].1));
        lemma_known_names(fs[k].0);
        if repeats(fs, k) {
            let j = choose|j: int| 0 <= j < k && (#[trigger] fs[j]).0 == fs[k].0;
            assert(fs[j].0 != fs[k].0);
        }
    }
}

proof fn lemma_none_twice(fs: Fields, known: Seq<Seq<char>>)
    requires
        upto(fs, fs.len() as int, known) is Ok,
    ensures
        none_twice(fs),
{
    lemma_upto_placed(fs, fs.len() as int, known);
    assert forall|i: int, j: int|
        #![trigger fs[i], fs[j]]
        0 <= i < j < fs.len() implies fs[i].0 != fs[j].0 by {
        if fs[i].0 == fs[j].0 {
            assert(repeats(fs, j));
        }
    }
}

/// Fields are taken exactly where each is one of the six, none is there twice, and each
/// value reads as what its field holds. The config then has the value of each, and
/// nothing of those that are not there.
pub proof fn law_fields_say_what_a_config_has(fs: Fields, name: Seq<char>)
    ensures
        upto(fs, fs.len() as int, config_fields()) is Ok <==> none_twice(fs) && forall|i: int|
            #![trigger fs[i]]
            0 <= i < fs.len() ==> reads_for(fs[i].0, fs[i].1) && (fs[i].0 == "ula"@ || fs[i].0
                == "sites"@ || fs[i].0 == "groups"@ || fs[i].0 == "allow"@ || fs[i].0 == "scopes"@
                || fs[i].0 == "subscribe"@),
        upto(fs, fs.len() as int, config_fields()) matches Ok(raw) ==> {
            &&& forall|i: int| 0 <= i < fs.len() ==> says(raw, (#[trigger] fs[i]).0, fs[i].1)
            &&& (forall|i: int| 0 <= i < fs.len() ==> (#[trigger] fs[i]).0 != name)
                ==> says_nothing_of(raw, name)
        },
{
    let known = config_fields();
    let n = fs.len() as int;
    assert forall|i: int| 0 <= i < fs.len() implies (known.contains((#[trigger] fs[i]).0) <==> (
    fs[i].0 == "ula"@ || fs[i].0 == "sites"@ || fs[i].0 == "groups"@ || fs[i].0 == "allow"@
        || fs[i].0 == "scopes"@ || fs[i].0 == "subscribe"@)) by {
        lemma_known_names(fs[i].0);
    }
    if upto(fs, n, known) is Ok {
        lemma_none_twice(fs, known);
        lemma_upto_placed(fs, n, known);
        lemma_upto_says(fs, n, known, name);
        let raw = upto(fs, n, known)->Ok_0;
        assert forall|i: int| #![trigger fs[i]] 0 <= i < fs.len() implies reads_for(
            fs[i].0,
            fs[i].1,
        ) && known.contains(fs[i].0) by {
            assert(says(raw, fs[i].0, fs[i].1));
        }
    }
    if none_twice(fs) && forall|i: int|
        #![trigger fs[i]]
        0 <= i < fs.len() ==> reads_for(fs[i].0, fs[i].1) && (fs[i].0 == "ula"@ || fs[i].0
            == "sites"@ || fs[i].0 == "groups"@ || fs[i].0 == "allow"@ || fs[i].0 == "scopes"@
            || fs[i].0 == "subscribe"@) {
        assert forall|i: int| #![trigger fs[i]] 0 <= i < fs.len() implies known.contains(fs[i].0)
            && reads_for(fs[i].0, fs[i].1) by {}
        lemma_upto_reads(fs, n, known);
    }
}

/// The same for a carrier, which has the first three of them.
pub proof fn law_fields_say_what_a_table_has(fs: Fields, name: Seq<char>)
    ensures
        upto(fs, fs.len() as int, table_fields()) is Ok <==> none_twice(fs) && forall|i: int|
            #![trigger fs[i]]
            0 <= i < fs.len() ==> reads_for(fs[i].0, fs[i].1) && (fs[i].0 == "ula"@ || fs[i].0
                == "sites"@ || fs[i].0 == "groups"@),
        upto(fs, fs.len() as int, table_fields()) matches Ok(raw) ==> {
            &&& forall|i: int| 0 <= i < fs.len() ==> says(raw, (#[trigger] fs[i]).0, fs[i].1)
            &&& (forall|i: int| 0 <= i < fs.len() ==> (#[trigger] fs[i]).0 != name)
                ==> says_nothing_of(raw, name)
        },
{
    let known = table_fields();
    let n = fs.len() as int;
    assert forall|w: Seq<char>| #[trigger] known.contains(w) implies config_fields().contains(
        w,
    ) by {
        lemma_known_names(w);
    }
    assert forall|i: int| 0 <= i < fs.len() implies (known.contains((#[trigger] fs[i]).0) <==> (
    fs[i].0 == "ula"@ || fs[i].0 == "sites"@ || fs[i].0 == "groups"@)) by {
        lemma_known_names(fs[i].0);
    }
    if upto(fs, n, known) is Ok {
        lemma_none_twice(fs, known);
        lemma_upto_placed(fs, n, known);
        lemma_upto_says(fs, n, known, name);
        let raw = upto(fs, n, known)->Ok_0;
        assert forall|i: int| #![trigger fs[i]] 0 <= i < fs.len() implies reads_for(
            fs[i].0,
            fs[i].1,
        ) && known.contains(fs[i].0) by {
            assert(says(raw, fs[i].0, fs[i].1));
        }
    }
    if none_twice(fs) && forall|i: int|
        #![trigger fs[i]]
        0 <= i < fs.len() ==> reads_for(fs[i].0, fs[i].1) && (fs[i].0 == "ula"@ || fs[i].0
            == "sites"@ || fs[i].0 == "groups"@) {
        assert forall|i: int| #![trigger fs[i]] 0 <= i < fs.len() implies known.contains(fs[i].0)
            && reads_for(fs[i].0, fs[i].1) by {}
        lemma_upto_reads(fs, n, known);
    }
}

/// A scope has the names of its `sni` and the rules of its `allow`, and none where the
/// field is not there.
pub proof fn law_fields_say_what_a_scope_has(fs: Fields, n: int)
    requires
        0 <= n <= fs.len(),
        none_twice(fs),
        scope_upto(fs, n) is Ok,
    ensures
        forall|i: int|
            #![trigger fs[i]]
            0 <= i < n ==> {
                &&& fs[i].0 == "sni"@ || fs[i].0 == "allow"@
                &&& fs[i].0 == "sni"@ ==> json_strings(fs[i].1) == Ok::<Seq<Seq<char>>, Seq<char>>(
                    scope_upto(fs, n)->Ok_0.sni,
                )
                &&& fs[i].0 == "allow"@ ==> json_strings(fs[i].1) == Ok::<
                    Seq<Seq<char>>,
                    Seq<char>,
                >(scope_upto(fs, n)->Ok_0.allow)
            },
        (forall|i: int| 0 <= i < n ==> (#[trigger] fs[i]).0 != "sni"@) ==> scope_upto(
            fs,
            n,
        )->Ok_0.sni.len() == 0,
        (forall|i: int| 0 <= i < n ==> (#[trigger] fs[i]).0 != "allow"@) ==> scope_upto(
            fs,
            n,
        )->Ok_0.allow.len() == 0,
    decreases n,
{
    lemma_names_differ();
    if n > 0 {
        let k = n - 1;
        law_fields_say_what_a_scope_has(fs, k);
        assert(misplaced(fs, k, scope_fields()) is None);
        lemma_known_names(fs[k].0);
        if comes_again(fs, k) {
            let j = choose|j: int| k < j < fs.len() && (#[trigger] fs[j]).0 == fs[k].0;
            assert(fs[k].0 != fs[j].0);
        }
        let s = scope_upto(fs, n)->Ok_0;
        assert forall|i: int| #![trigger fs[i]] 0 <= i < n implies {
            &&& fs[i].0 == "sni"@ || fs[i].0 == "allow"@
            &&& fs[i].0 == "sni"@ ==> json_strings(fs[i].1) == Ok::<Seq<Seq<char>>, Seq<char>>(
                s.sni,
            )
            &&& fs[i].0 == "allow"@ ==> json_strings(fs[i].1) == Ok::<Seq<Seq<char>>, Seq<char>>(
                s.allow,
            )
        } by {
            if i < k {
                assert(fs[i].0 != fs[k].0);
            }
        }
        if forall|i: int| 0 <= i < n ==> (#[trigger] fs[i]).0 != "sni"@ {
            assert(fs[k].0 != "sni"@);
        }
        if forall|i: int| 0 <= i < n ==> (#[trigger] fs[i]).0 != "allow"@ {
            assert(fs[k].0 != "allow"@);
        }
    }
}

/// A scope is taken exactly where each of its fields is one of the two, none is there
/// twice, and each is a list of strings.
pub proof fn law_scopes_take_two_fields(fs: Fields)
    ensures
        scope_upto(fs, fs.len() as int) is Ok <==> none_twice(fs) && forall|i: int|
            #![trigger fs[i]]
            0 <= i < fs.len() ==> (fs[i].0 == "sni"@ || fs[i].0 == "allow"@) && json_strings(
                fs[i].1,
            ) is Ok,
{
    if scope_upto(fs, fs.len() as int) is Ok {
        lemma_scope_placed(fs, fs.len() as int);
        assert forall|i: int, j: int|
            #![trigger fs[i], fs[j]]
            0 <= i < j < fs.len() implies fs[i].0 != fs[j].0 by {
            if fs[i].0 == fs[j].0 {
                assert(repeats(fs, j));
            }
        }
        law_fields_say_what_a_scope_has(fs, fs.len() as int);
    }
    if none_twice(fs) && forall|i: int|
        #![trigger fs[i]]
        0 <= i < fs.len() ==> (fs[i].0 == "sni"@ || fs[i].0 == "allow"@) && json_strings(
            fs[i].1,
        ) is Ok {
        lemma_scope_reads(fs, fs.len() as int);
    }
}

proof fn lemma_scope_placed(fs: Fields, n: int)
    requires
        0 <= n <= fs.len(),
        scope_upto(fs, n) is Ok,
    ensures
        forall|i: int| #![trigger fs[i]] 0 <= i < n ==> !repeats(fs, i),
    decreases n,
{
    if n > 0 {
        lemma_scope_placed(fs, n - 1);
        assert(misplaced(fs, n - 1, scope_fields()) is None);
    }
}

proof fn lemma_scope_reads(fs: Fields, n: int)
    requires
        0 <= n <= fs.len(),
        none_twice(fs),
        forall|i: int|
            #![trigger fs[i]]
            0 <= i < fs.len() ==> (fs[i].0 == "sni"@ || fs[i].0 == "allow"@) && json_strings(
                fs[i].1,
            ) is Ok,
    ensures
        scope_upto(fs, n) is Ok,
    decreases n,
{
    if n > 0 {
        let k = n - 1;
        lemma_scope_reads(fs, k);
        lemma_known_names(fs[k].0);
        if repeats(fs, k) {
            let j = choose|j: int| 0 <= j < k && (#[trigger] fs[j]).0 == fs[k].0;
            assert(fs[j].0 != fs[k].0);
        }
    }
}

/// Scopes are read one by one, in the order written, and one that is refused refuses
/// them all.
pub proof fn law_scopes_are_read_one_by_one(ts: Seq<Seq<char>>)
    ensures
        match scopes_read(ts) {
            Ok(list) => list.len() == ts.len() && forall|i: int|
                0 <= i < ts.len() ==> scope_reads(#[trigger] ts[i]) == Ok::<
                    RawScopeView,
                    Seq<char>,
                >(list[i]),
            Err(e) => exists|i: int|
                0 <= i < ts.len() && scope_reads(#[trigger] ts[i]) == Err::<
                    RawScopeView,
                    Seq<char>,
                >(e),
        },
    decreases ts.len(),
{
    if ts.len() > 0 {
        let head = ts.drop_last();
        let n = ts.len() - 1;
        law_scopes_are_read_one_by_one(head);
        match scopes_read(head) {
            Err(e) => {
                let i = choose|i: int|
                    0 <= i < head.len() && scope_reads(#[trigger] head[i]) == Err::<
                        RawScopeView,
                        Seq<char>,
                    >(e);
                assert(scope_reads(ts[i]) == Err::<RawScopeView, Seq<char>>(e));
            },
            Ok(hl) => {
                assert(scope_reads(ts[n]) == scope_reads(ts.last()));
                if scopes_read(ts) is Ok {
                    let list = scopes_read(ts)->Ok_0;
                    assert forall|i: int| 0 <= i < ts.len() implies scope_reads(#[trigger] ts[i])
                        == Ok::<RawScopeView, Seq<char>>(list[i]) by {
                        if i < n {
                            assert(scope_reads(head[i]) == Ok::<RawScopeView, Seq<char>>(hl[i]));
                        }
                    }
                }
            },
        }
    }
}

/// The value of a field is the first that is written for it.
pub proof fn law_fields_are_found_by_name(fs: Fields, name: Seq<char>, i: int)
    ensures
        0 <= i < fs.len() && fs[i].0 == name && (forall|j: int|
            0 <= j < i ==> (#[trigger] fs[j]).0 != name) ==> field(fs, name) == Some(fs[i].1),
        (forall|j: int| 0 <= j < fs.len() ==> (#[trigger] fs[j]).0 != name) ==> field(
            fs,
            name,
        ) is None,
    decreases fs.len(),
{
    if fs.len() > 0 {
        let rest = fs.drop_first();
        law_fields_are_found_by_name(rest, name, i - 1);
        assert forall|j: int| 0 <= j < rest.len() implies rest[j] == #[trigger] fs[j + 1] by {}
        if 0 < i < fs.len() && fs[i].0 == name && forall|j: int|
            0 <= j < i ==> (#[trigger] fs[j]).0 != name {
            assert(fs[0].0 != name);
            assert(rest[i - 1] == fs[i]);
            assert forall|j: int| 0 <= j < i - 1 implies (#[trigger] rest[j]).0 != name by {
                assert(fs[j + 1].0 != name);
            }
        }
        if forall|j: int| 0 <= j < fs.len() ==> (#[trigger] fs[j]).0 != name {
            assert(fs[0].0 != name);
            assert forall|j: int| 0 <= j < rest.len() implies (#[trigger] rest[j]).0 != name by {
                assert(fs[j + 1].0 != name);
            }
        }
    }
}

/// The fields of an object are those that its text names, in that order, each with the
/// value that the object has for it.
pub proof fn law_objects_have_the_fields_they_name(
    text: Seq<char>,
    map: Fields,
    order: Seq<Seq<char>>,
    least: int,
    short: Seq<char>,
)
    requires
        !is_array(text),
        json_object(text) == Ok::<Fields, Seq<char>>(map),
    ensures
        fields_of(text, order, least, short) matches Ok(w) ==> {
            &&& w.flaw is None
            &&& w.fields.len() == written_keys(text).len()
            &&& forall|i: int|
                0 <= i < w.fields.len() ==> {
                    &&& json_string(written_keys(text)[i]) == Ok::<Option<Seq<char>>, Seq<char>>(
                        Some((#[trigger] w.fields[i]).0),
                    )
                    &&& field(map, w.fields[i].0) matches Some(t) ==> w.fields[i].1 == t
                }
        },
{
    lemma_names_read(written_keys(text));
    if let Ok(w) = fields_of(text, order, least, short) {
        let names = names_read(written_keys(text))->Ok_0;
        assert forall|i: int| 0 <= i < w.fields.len() implies {
            &&& json_string(written_keys(text)[i]) == Ok::<Option<Seq<char>>, Seq<char>>(
                Some((#[trigger] w.fields[i]).0),
            )
            &&& field(map, w.fields[i].0) matches Some(t) ==> w.fields[i].1 == t
        } by {
            assert(w.fields[i].0 == names[i]);
            assert(json_string(written_keys(text)[i]) == Ok::<Option<Seq<char>>, Seq<char>>(
                Some(names[i]),
            ));
        }
    }
}

proof fn lemma_names_read(keys: Seq<Seq<char>>)
    ensures
        names_read(keys) matches Ok(names) ==> names.len() == keys.len() && forall|i: int|
            0 <= i < keys.len() ==> json_string(keys[i]) == Ok::<Option<Seq<char>>, Seq<char>>(
                Some(#[trigger] names[i]),
            ),
    decreases keys.len(),
{
    if keys.len() > 0 {
        let few = keys.drop_last();
        lemma_names_read(few);
        if let Ok(names) = names_read(keys) {
            let head = names_read(few)->Ok_0;
            assert forall|i: int| 0 <= i < keys.len() implies json_string(keys[i]) == Ok::<
                Option<Seq<char>>,
                Seq<char>,
            >(Some(#[trigger] names[i])) by {
                if i < few.len() {
                    assert(names[i] == head[i]);
                    assert(few[i] == keys[i]);
                }
            }
        }
    }
}

/// An array stands for the fields in their order: an item for each, at least so many and
/// no more than there are.
pub proof fn law_arrays_stand_for_fields(
    text: Seq<char>,
    items: Seq<Seq<char>>,
    order: Seq<Seq<char>>,
    least: int,
    short: Seq<char>,
)
    requires
        is_array(text),
        json_items(text) == Ok::<Option<Seq<Seq<char>>>, Seq<char>>(Some(items)),
        least <= order.len(),
    ensures
        fields_of(text, order, least, short) matches Ok(w) && {
            &&& w.flaw is None <==> least <= items.len() <= order.len()
            &&& items.len() <= order.len() ==> w.fields.len() == items.len()
            &&& forall|i: int|
                0 <= i < w.fields.len() ==> (#[trigger] w.fields[i]).0 == order[i] && w.fields[i].1
                    == items[i]
        },
{
}

/// A config says what its fields say, where it is an object, or an array of the two rules;
/// a carrier's says what its three say.
pub proof fn law_texts_say_what_their_fields_say(text: Seq<char>, raw: RawView)
    ensures
        config_read(text) == Ok::<RawView, Seq<char>>(raw) <==> (fields_of(
            text,
            seq!["allow"@, "scopes"@],
            2,
            "invalid length 1"@,
        ) matches Ok(w) && w.flaw is None && upto(
            w.fields,
            w.fields.len() as int,
            config_fields(),
        ) == Ok::<RawView, Seq<char>>(raw)),
        table_read(text) == Ok::<RawView, Seq<char>>(raw) <==> (fields_of(
            text,
            seq!["ula"@, "sites"@, "groups"@],
            1,
            "invalid length 0"@,
        ) matches Ok(w) && w.flaw is None && upto(
            w.fields,
            w.fields.len() as int,
            table_fields(),
        ) == Ok::<RawView, Seq<char>>(raw)),
{
}

/// A field that may not stand where it does is named, with those that may; the unknown
/// one before the one that is there twice.
pub proof fn law_misplaced_fields_are_named(fs: Fields, i: int, known: Seq<Seq<char>>)
    requires
        0 <= i < fs.len(),
    ensures
        !known.contains(fs[i].0) && known.len() == 2 ==> misplaced(fs, i, known) == Some(
            "unknown field "@ + ("`"@ + fs[i].0 + "`"@) + ", expected "@ + ("`"@ + known[0] + "`"@
                + " or "@ + ("`"@ + known[1] + "`"@)),
        ),
        !known.contains(fs[i].0) && known.len() != 2 ==> misplaced(fs, i, known) == Some(
            "unknown field "@ + ("`"@ + fs[i].0 + "`"@) + ", expected "@ + ("one of "@
                + ticked_list(known)),
        ),
        known.contains(fs[i].0) && (exists|j: int| 0 <= j < i && (#[trigger] fs[j]).0 == fs[i].0)
            ==> misplaced(fs, i, known) == Some("duplicate field "@ + ("`"@ + fs[i].0 + "`"@)),
        known.contains(fs[i].0) && (forall|j: int| 0 <= j < i ==> (#[trigger] fs[j]).0 != fs[i].0)
            ==> misplaced(fs, i, known) is None,
{
}

/// Names are listed in backticks with a comma and a blank between.
pub proof fn law_names_are_listed_in_backticks(names: Seq<Seq<char>>, name: Seq<char>)
    ensures
        ticked_list(seq![name]) == "`"@ + name + "`"@,
        names.len() > 0 ==> ticked_list(names.push(name)) == ticked_list(names) + ", "@ + ("`"@
            + name + "`"@),
{
    assert(names.push(name).drop_last() =~= names);
}

/// The fields that each kind of text may have, in the order in which they are listed.
pub proof fn law_fields_are_these()
    ensures
        config_fields() == seq!["ula"@, "sites"@, "groups"@, "allow"@, "scopes"@, "subscribe"@],
        table_fields() == seq!["ula"@, "sites"@, "groups"@],
        scope_fields() == seq!["sni"@, "allow"@],
{
}

/// A scope says what its two fields say, and a list of scopes what each of them says; null
/// is no list.
pub proof fn law_scopes_say_what_their_fields_say(
    t: Seq<char>,
    s: RawScopeView,
    list: Option<Seq<RawScopeView>>,
)
    ensures
        scope_reads(t) == Ok::<RawScopeView, Seq<char>>(s) <==> (fields_of(
            t,
            seq!["sni"@, "allow"@],
            0,
            seq![],
        ) matches Ok(w) && w.flaw is None && scope_upto(w.fields, w.fields.len() as int) == Ok::<
            RawScopeView,
            Seq<char>,
        >(s)),
        scopes_of(t) == Ok::<Option<Seq<RawScopeView>>, Seq<char>>(list) <==> match list {
            None => json_items(t) == Ok::<Option<Seq<Seq<char>>>, Seq<char>>(None),
            Some(made) => json_items(t) matches Ok(Some(ts)) && scopes_read(ts) == Ok::<
                Seq<RawScopeView>,
                Seq<char>,
            >(made),
        },
{
}

/// An object has its fields read exactly where its text reads as an object and each name
/// that it writes reads as a string; what is wrong with the object comes first.
pub proof fn law_objects_are_read_where_their_names_are(
    text: Seq<char>,
    order: Seq<Seq<char>>,
    least: int,
    short: Seq<char>,
)
    requires
        !is_array(text),
    ensures
        json_object(text) matches Err(e) ==> fields_of(text, order, least, short) == Err::<
            Written,
            Seq<char>,
        >(e),
        fields_of(text, order, least, short) is Ok <==> json_object(text) is Ok && forall|i: int|
            0 <= i < written_keys(text).len() ==> (json_string(
                #[trigger] written_keys(text)[i],
            ) matches Ok(Some(_))),
{
    let keys = written_keys(text);
    lemma_names_read(keys);
    if names_read(keys) is Ok {
        let names = names_read(keys)->Ok_0;
        assert forall|i: int| 0 <= i < keys.len() implies (json_string(
            #[trigger] keys[i],
        ) matches Ok(Some(_))) by {
            assert(json_string(keys[i]) == Ok::<Option<Seq<char>>, Seq<char>>(Some(names[i])));
        }
    }
    if forall|i: int|
        0 <= i < keys.len() ==> (json_string(#[trigger] keys[i]) matches Ok(Some(_))) {
        lemma_names_are_read(keys);
    }
}

proof fn lemma_names_are_read(keys: Seq<Seq<char>>)
    requires
        forall|i: int|
            0 <= i < keys.len() ==> (json_string(#[trigger] keys[i]) matches Ok(Some(_))),
    ensures
        names_read(keys) is Ok,
    decreases keys.len(),
{
    if keys.len() > 0 {
        let few = keys.drop_last();
        assert forall|i: int| 0 <= i < few.len() implies (json_string(
            #[trigger] few[i],
        ) matches Ok(Some(_))) by {
            assert(few[i] == keys[i]);
        }
        lemma_names_are_read(few);
        assert(json_string(keys[keys.len() - 1]) matches Ok(Some(_)));
    }
}

/// Null in the place of an array has no items, and what is wrong with an array comes
/// first.
pub proof fn law_arrays_may_be_null_or_wrong(
    text: Seq<char>,
    order: Seq<Seq<char>>,
    least: int,
    short: Seq<char>,
)
    requires
        is_array(text),
    ensures
        json_items(text) matches Err(e) ==> fields_of(text, order, least, short) == Err::<
            Written,
            Seq<char>,
        >(e),
        json_items(text) == Ok::<Option<Seq<Seq<char>>>, Seq<char>>(None) ==> (fields_of(
            text,
            order,
            least,
            short,
        ) matches Ok(w) && w.fields.len() == 0 && (w.flaw is None <==> least <= 0)),
{
}

} // verus!
