//! Counter ids, resolved once at listener build.
//!
//! Names are prefixed with the filter_name: all filters on a listener share one
//! metrics namespace, so unprefixed names from `ppv2` and `auth` on the same TLS
//! listener would merge into one stat.

use crate::text::concat;
use vstd::prelude::*;

verus! {

/// What the host calls a counter that it has defined.
#[derive(Debug, Clone, Copy, PartialEq, Eq)]
pub struct CounterId(pub usize);

/// None means registration failed or was skipped -- never a reason to fail a
/// listener.
#[derive(Debug, Clone, Copy, PartialEq, Eq)]
pub struct Counters {
    pub allowed: Option<CounterId>,
    pub denied: Option<CounterId>,
    pub not_ppv2: Option<CounterId>,
}

/// What is counted.
#[derive(Debug, Clone, Copy, PartialEq, Eq)]
pub enum Counted {
    Allowed,
    Denied,
    NotPpv2,
}

impl Default for Counters {
    fn default() -> (r: Self)
        ensures
            r.allowed is None,
            r.denied is None,
            r.not_ppv2 is None,
    {
        Counters { allowed: None, denied: None, not_ppv2: None }
    }
}

/// How a counter of a filter is called.
pub open spec fn counter_name(filter_name: Seq<char>, what: Counted) -> Seq<char> {
    filter_name + match what {
        Counted::Allowed => "_allowed"@,
        Counted::Denied => "_denied"@,
        Counted::NotPpv2 => "_not_ppv2"@,
    }
}

pub fn name_of(filter_name: &str, what: Counted) -> (r: String)
    ensures
        r@ == counter_name(filter_name@, what),
{
    match what {
        Counted::Allowed => concat(filter_name, "_allowed"),
        Counted::Denied => concat(filter_name, "_denied"),
        Counted::NotPpv2 => concat(filter_name, "_not_ppv2"),
    }
}

/// `define` may answer a name this way.
pub open spec fn answered<F: FnMut(&str) -> Option<CounterId>>(
    define: F,
    name: Seq<char>,
    id: Option<CounterId>,
) -> bool {
    exists|n: &str| n@ == name && #[trigger] define.ensures((n,), id)
}

impl Counters {
    /// The counter for something, where it is registered.
    pub fn of(&self, what: Counted) -> (r: Option<CounterId>)
        ensures
            r == match what {
                Counted::Allowed => self.allowed,
                Counted::Denied => self.denied,
                Counted::NotPpv2 => self.not_ppv2,
            },
    {
        match what {
            Counted::Allowed => self.allowed,
            Counted::Denied => self.denied,
            Counted::NotPpv2 => self.not_ppv2,
        }
    }

    /// Generic over a define closure so TCP and UDP configs share one registrar.
    pub fn register<F: FnMut(&str) -> Option<CounterId>>(filter_name: &str, define: F) -> (r:
        Counters)
        requires
            forall|name: &str| #[trigger] define.requires((name,)),
        ensures
            answered(define, counter_name(filter_name@, Counted::Allowed), r.allowed),
            answered(define, counter_name(filter_name@, Counted::Denied), r.denied),
            answered(define, counter_name(filter_name@, Counted::NotPpv2), r.not_ppv2),
    {
        let mut define = define;
        let first = name_of(filter_name, Counted::Allowed);
        let allowed = define(&first);
        let second = name_of(filter_name, Counted::Denied);
        let denied = define(&second);
        let third = name_of(filter_name, Counted::NotPpv2);
        let not_ppv2 = define(&third);
        Counters { allowed, denied, not_ppv2 }
    }
}

// --- laws ---------------------------------------------------------------------

/// A counter's name begins with that of its filter, and no two counters have one name,
/// whichever filters they are of.
pub proof fn law_counters_do_not_merge(f: Seq<char>, a: Counted, g: Seq<char>, b: Counted)
    ensures
        counter_name(f, a).len() > f.len(),
        counter_name(f, a).take(f.len() as int) == f,
        counter_name(f, a) == counter_name(g, b) ==> f == g && a == b,
{
    reveal_strlit("_allowed");
    reveal_strlit("_denied");
    reveal_strlit("_not_ppv2");
    let s = counter_name(f, a);
    let t = counter_name(g, b);
    assert(s.take(f.len() as int) =~= f);
    assert(t.take(g.len() as int) =~= g);
    if s == t {
        let n = s.len();
        assert(s[n - 1] == t[n - 1] && s[n - 3] == t[n - 3]);
    }
}

/// How each counter of a filter is called.
pub proof fn law_counters_are_called_by_what_they_count(f: Seq<char>)
    ensures
        counter_name(f, Counted::Allowed) == f + "_allowed"@,
        counter_name(f, Counted::Denied) == f + "_denied"@,
        counter_name(f, Counted::NotPpv2) == f + "_not_ppv2"@,
{
}

} // verus!
