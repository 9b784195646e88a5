//! The namespace-scoped group graph: resolution, and the cycles it refuses.

use ppv2_auth::agg::{key, Event, Graph, IdentityGroupSpec, Key, Member, Outcome, UpsertError};

fn ns() -> String {
    "ns".into()
}
fn k(name: &str) -> Key {
    (ns(), name.into())
}
fn m(s: &[&str]) -> Vec<Member> {
    s.iter().map(|x| x.to_string()).collect()
}

#[test]
fn resolve_literals() {
    let mut g = Graph::default();
    g.upsert(k("a"), m(&["vpce-x", "10.0.0.0/24"])).unwrap();
    let out = g.resolve(&ns(), &m(&["@a"]));
    assert_eq!(out.len(), 2);
    assert!(out.contains(&"vpce-x".to_string()));
    assert!(out.contains(&"10.0.0.0/24".to_string()));
}

#[test]
fn resolve_transitive() {
    let mut g = Graph::default();
    g.upsert(k("leaf"), m(&["vpce-1"])).unwrap();
    g.upsert(k("mid"), m(&["@leaf", "10.0.0.0/8"])).unwrap();
    g.upsert(k("top"), m(&["@mid", "vpce-2"])).unwrap();
    let out = g.resolve(&ns(), &m(&["@top"]));
    assert_eq!(out.len(), 3);
    assert!(out.contains(&"vpce-1".to_string()));
    assert!(out.contains(&"vpce-2".to_string()));
    assert!(out.contains(&"10.0.0.0/8".to_string()));
}

#[test]
fn resolve_dedups_diamond() {
    let mut g = Graph::default();
    g.upsert(k("leaf"), m(&["vpce-1"])).unwrap();
    g.upsert(k("a"), m(&["@leaf"])).unwrap();
    g.upsert(k("b"), m(&["@leaf"])).unwrap();
    g.upsert(k("top"), m(&["@a", "@b"])).unwrap();
    let out = g.resolve(&ns(), &m(&["@top"]));
    assert_eq!(out.len(), 1);
}

#[test]
fn resolve_ignores_unknown_ref() {
    let mut g = Graph::default();
    g.upsert(k("a"), m(&["@missing", "vpce-x"])).unwrap();
    let out = g.resolve(&ns(), &m(&["@a"]));
    assert_eq!(out.len(), 1);
    assert!(out.contains(&"vpce-x".to_string()));
}

#[test]
fn cycle_self() {
    let mut g = Graph::default();
    assert!(matches!(
        g.upsert(k("a"), m(&["@a"])),
        Err(UpsertError::Cycle { .. })
    ));
}

#[test]
fn cycle_two_hop() {
    let mut g = Graph::default();
    g.upsert(k("a"), m(&["@b"])).unwrap();
    assert!(matches!(
        g.upsert(k("b"), m(&["@a"])),
        Err(UpsertError::Cycle { .. })
    ));
    // graph state unchanged after rejection
    assert!(g.get(&k("b")).is_none());
}

#[test]
fn cycle_scoped_to_namespace() {
    let mut g = Graph::default();
    g.upsert(("ns1".into(), "a".into()), m(&["@b"])).unwrap();
    // @b in ns2 -> different group; not a cycle even though names collide across namespaces.
    assert!(g
        .upsert(("ns2".into(), "b".into()), m(&["@a"]))
        .is_ok());
}

#[test]
fn resolve_scoped_to_namespace() {
    let mut g = Graph::default();
    g.upsert(("ns1".into(), "a".into()), m(&["vpce-1"])).unwrap();
    g.upsert(("ns2".into(), "a".into()), m(&["vpce-2"])).unwrap();
    assert_eq!(
        g.resolve("ns1", &m(&["@a"])).into_iter().collect::<Vec<_>>(),
        vec!["vpce-1".to_string()]
    );
}

#[test]
fn a_rejected_cycle_names_the_way_round() {
    let mut g = Graph::default();
    g.upsert(k("b"), m(&["@c"])).unwrap();
    g.upsert(k("c"), m(&["@a", "x"])).unwrap();
    let UpsertError::Cycle { names } = g.upsert(k("a"), m(&["@b"])).unwrap_err();
    assert_eq!(names, ["a", "b", "c", "a"]);
    // Nothing was taken in.
    assert!(g.get(&k("a")).is_none());
    assert_eq!(g.len(), 2);
}

#[test]
fn events_are_taken_in_one_by_one() {
    let apply = |name: &str, members: &[&str]| {
        Event::Apply(k(name), IdentityGroupSpec { members: m(members) })
    };
    let mut g = Graph::default();
    assert_eq!(g.handle(apply("b", &["vpce-1", "@a"])), Outcome::Upserted);
    assert_eq!(
        g.handle(apply("a", &["@b"])),
        Outcome::Rejected(UpsertError::Cycle { names: m(&["a", "b", "a"]) })
    );
    assert_eq!(g.handle(apply("a", &["10.0.0.0/8"])), Outcome::Upserted);
    assert_eq!(g.handle(Event::InitDone), Outcome::Synced(2));
    assert_eq!(
        g.dump(),
        [
            ("ns/a".to_string(), m(&["10.0.0.0/8"])),
            ("ns/b".to_string(), m(&["vpce-1", "@a"])),
        ]
    );
    assert_eq!(g.handle(Event::Delete(k("a"))), Outcome::Deleted);
    assert_eq!(g.get(&k("b")), Some(&m(&["vpce-1", "@a"])));
    assert_eq!(g.handle(Event::Init), Outcome::Wiped);
    assert_eq!(g.len(), 0);
}

#[test]
fn a_query_is_split_tidied_and_resolved() {
    let mut g = Graph::default();
    g.upsert(k("a"), m(&["z", "y", "@b"])).unwrap();
    g.upsert(k("b"), m(&["y", "x"])).unwrap();
    let (entry, resolved) = g.answer("ns", " @a ,, w,");
    assert_eq!(entry, ["@a", "w"]);
    assert_eq!(resolved, ["w", "x", "y", "z"]);
    let (entry, resolved) = g.answer("ns", "");
    assert!(entry.is_empty() && resolved.is_empty());
}

#[test]
fn a_resource_without_a_namespace_has_the_empty_one() {
    assert_eq!(key(Some("ns".into()), "a".into()), k("a"));
    assert_eq!(key(None, "a".into()), ("".to_string(), "a".to_string()));
}

#[test]
fn a_cycle_is_named_without_detours() {
    let mut g = Graph::default();
    // b and c lead to each other; the way back to a passes each once.
    g.upsert(k("c"), m(&["@a", "@d"])).unwrap();
    g.upsert(k("d"), m(&["@e"])).unwrap();
    g.upsert(k("b"), m(&["@d", "@c", "@d"])).unwrap();
    let UpsertError::Cycle { names } = g.upsert(k("a"), m(&["x", "@d", "@b", "@c"])).unwrap_err();
    assert_eq!(names, ["a", "b", "c", "a"]);
    let UpsertError::Cycle { names } = g.upsert(k("z"), m(&["@z"])).unwrap_err();
    assert_eq!(names, ["z", "z"]);
}

#[test]
fn keys_that_are_written_alike_have_one_row() {
    let mut g = Graph::default();
    g.upsert(("a".into(), "b/c".into()), m(&["1"])).unwrap();
    g.upsert(("a/b".into(), "c".into()), m(&["2"])).unwrap();
    g.upsert(("a".into(), "b".into()), m(&["3"])).unwrap();
    let rows = g.dump();
    assert_eq!(g.len(), 3);
    assert_eq!(rows.len(), 2);
    assert_eq!(rows[0], ("a/b".to_string(), m(&["3"])));
    assert_eq!(rows[1].0, "a/b/c");
    assert!(rows[1].1 == m(&["1"]) || rows[1].1 == m(&["2"]));
}
