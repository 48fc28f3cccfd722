use lib::delta::OpenedMeta;
use lib::meta::NodeBody;
use lib::text::{compare_text, Rel};
use lib::{
    apply_delta, metas_to_open, missing_parents, validate, AppliedGraph, DataError, Event, NodeId,
    NodeName, ObjectName, ParentRef, RawDelta, RawStatus, Resolution, Sort, SyncMark, Table,
};

fn obj(s: &str) -> ObjectName {
    ObjectName::new(s.to_string())
}

fn id(s: &str) -> NodeId {
    NodeId::born(obj(s))
}

fn meta(object: &str, parent: Option<&str>, name: &str, body: Option<&str>) -> OpenedMeta {
    OpenedMeta {
        object: obj(object),
        schema: 1,
        parent: parent.map(obj),
        name: name.to_string(),
        body: body.map(obj),
    }
}

fn delta(entries: &[(&str, RawStatus)]) -> RawDelta {
    RawDelta(entries.iter().map(|(n, s)| (obj(n), *s)).collect())
}

/// A table holding the given metas (and the bodies they name), built by unfolding them.
fn table_with(metas: Vec<OpenedMeta>, mark: Option<&str>) -> Table {
    let mut entries: Vec<(ObjectName, RawStatus)> = Vec::new();
    for m in &metas {
        entries.push((m.object.clone(), RawStatus::Appeared));
        if let Some(b) = &m.body {
            entries.push((b.clone(), RawStatus::Appeared));
        }
    }
    let g = apply_delta(Table::new(), RawDelta(entries), &metas).expect("birth of the nodes");
    let mut t = g.table;
    t.mark = mark.map(|m| SyncMark::new(m.to_string()));
    t
}

fn name_of(t: &Table, node: &str) -> String {
    t.nodes.get(&id(node)).expect("node").meta.place.name.as_str().to_string()
}

fn parent_of(t: &Table, node: &str) -> Option<String> {
    match &t.nodes.get(&id(node)).expect("node").meta.place.parent {
        ParentRef::Root => None,
        ParentRef::Node(p) => Some(p.as_str().to_string()),
    }
}

fn path(state: &lib::ValidatedState, node: &str) -> Vec<String> {
    state.derive_path(&id(node)).components().iter().map(|n| n.as_str().to_string()).collect()
}

// ---------------------------------------------------------------- names

#[test]
fn parse_accepts_a_plain_name() {
    let n = NodeName::parse(&id("k1"), "mail.txt").unwrap();
    assert_eq!(n.as_str(), "mail.txt");
}

#[test]
fn parse_accepts_dots_that_are_not_traversal() {
    assert!(NodeName::parse(&id("k1"), "...").is_ok());
    assert!(NodeName::parse(&id("k1"), ".hidden").is_ok());
    assert!(NodeName::parse(&id("k1"), "пароль ключ").is_ok());
}

#[test]
fn parse_refuses_traversal_and_control_characters() {
    for raw in ["", ".", "..", "a/b", "/", "a\\b", "tab\there", "nl\n", "del\u{7f}", "c1\u{85}"] {
        match NodeName::parse(&id("k7"), raw) {
            Err(DataError::IllegalName { id, raw: r }) => {
                assert_eq!(id.as_str(), "k7");
                assert_eq!(r, raw);
            }
            other => panic!("{:?} gave {:?}", raw, other),
        }
    }
}

#[test]
fn compare_text_orders_by_code_point() {
    assert_eq!(compare_text("a", "b"), Rel::Less);
    assert_eq!(compare_text("b", "a"), Rel::Greater);
    assert_eq!(compare_text("ab", "ab"), Rel::Equal);
    assert_eq!(compare_text("a", "ab"), Rel::Less);
    assert_eq!(compare_text("", "a"), Rel::Less);
    assert_eq!(compare_text("Z", "a"), Rel::Less);
}

// ---------------------------------------------------------------- phase one

#[test]
fn birth_of_a_secret_and_its_body() {
    let metas = vec![meta("k1", None, "mail", Some("b1"))];
    let g = apply_delta(
        Table::new(),
        delta(&[("b1", RawStatus::Appeared), ("k1", RawStatus::Appeared)]),
        &metas,
    )
    .unwrap();
    // metas first, then bodies
    assert_eq!(g.events.len(), 2);
    assert!(matches!(&g.events[0], Event::NodeBorn { id, .. } if id.as_str() == "k1"));
    assert!(matches!(&g.events[1], Event::BodyArrived { body } if body.as_str() == "b1"));
    assert!(matches!(g.table.sorts.get(&obj("k1")), Some(Sort::Meta(_))));
    assert!(matches!(g.table.sorts.get(&obj("b1")), Some(Sort::Body(_))));
    assert_eq!(name_of(&g.table, "k1"), "mail");
    let roots = g.table.children.get(&ParentRef::Root).unwrap();
    assert_eq!(roots.len(), 1);
    assert_eq!(roots[0].as_str(), "k1");
}

#[test]
fn metas_to_open_names_new_objects_and_changed_metas() {
    let t = table_with(vec![meta("k1", None, "a", Some("b1"))], None);
    let d = delta(&[
        ("k1", RawStatus::Modified),
        ("b1", RawStatus::Modified),
        ("k2", RawStatus::Appeared),
        ("b1", RawStatus::Disappeared),
    ]);
    let names: Vec<String> = metas_to_open(&t, &d).iter().map(|o| o.as_str().to_string()).collect();
    assert_eq!(names, vec!["k1".to_string(), "k2".to_string()]);
}

#[test]
fn move_keeps_the_body_link_as_born() {
    let t = table_with(
        vec![meta("k1", None, "dir", None), meta("k2", None, "secret", Some("b2"))],
        Some("m0"),
    );
    let opened = vec![meta("k2", Some("k1"), "renamed", Some("b2"))];
    let g = apply_delta(t, delta(&[("k2", RawStatus::Modified)]), &opened).unwrap();
    assert!(matches!(&g.events[0], Event::MetaChanged { id, .. } if id.as_str() == "k2"));
    assert_eq!(name_of(&g.table, "k2"), "renamed");
    assert_eq!(parent_of(&g.table, "k2"), Some("k1".to_string()));
    let under = g.table.children.get(&ParentRef::Node(id("k1"))).unwrap();
    assert_eq!(under[0].as_str(), "k2");
    assert_eq!(g.table.mark.as_ref().unwrap().as_str(), "m0");
}

#[test]
fn death_of_a_node_with_its_body() {
    let t = table_with(vec![meta("k1", None, "a", Some("b1"))], None);
    let g = apply_delta(
        t,
        delta(&[("b1", RawStatus::Disappeared), ("k1", RawStatus::Disappeared)]),
        &Vec::new(),
    )
    .unwrap();
    assert!(matches!(&g.events[0], Event::NodeDied { id } if id.as_str() == "k1"));
    assert!(matches!(&g.events[1], Event::BodyGone { body } if body.as_str() == "b1"));
    assert_eq!(g.table.nodes.len(), 0);
    assert_eq!(g.table.sorts.len(), 0);
}

#[test]
fn content_change_of_a_live_body() {
    let t = table_with(vec![meta("k1", None, "a", Some("b1"))], None);
    let g = apply_delta(t, delta(&[("b1", RawStatus::Modified)]), &Vec::new()).unwrap();
    assert!(matches!(&g.events[0], Event::ContentChanged { body } if body.as_str() == "b1"));
}

#[test]
fn unknown_object_is_a_data_error() {
    let r = apply_delta(Table::new(), delta(&[("zz", RawStatus::Modified)]), &Vec::new());
    assert!(matches!(r, Err(DataError::UnknownObject(n)) if n.as_str() == "zz"));
    let r = apply_delta(Table::new(), delta(&[("b9", RawStatus::Appeared)]), &Vec::new());
    assert!(matches!(r, Err(DataError::UnknownObject(n)) if n.as_str() == "b9"));
}

#[test]
fn body_gone_while_its_meta_lives_is_inconsistent() {
    let t = table_with(vec![meta("k1", None, "a", Some("b1"))], None);
    let r = apply_delta(t, delta(&[("b1", RawStatus::Disappeared)]), &Vec::new());
    assert!(matches!(r, Err(DataError::InconsistentDelta(n)) if n.as_str() == "b1"));
}

#[test]
fn secret_dying_without_its_body_is_inconsistent() {
    let t = table_with(vec![meta("k1", None, "a", Some("b1"))], None);
    let r = apply_delta(
        t,
        delta(&[("k1", RawStatus::Disappeared), ("b1", RawStatus::Modified)]),
        &Vec::new(),
    );
    assert!(matches!(r, Err(DataError::InconsistentDelta(n)) if n.as_str() == "k1"));
    let t = table_with(vec![meta("k1", None, "a", Some("b1"))], None);
    let r = apply_delta(t, delta(&[("k1", RawStatus::Disappeared)]), &Vec::new());
    assert!(matches!(r, Err(DataError::InconsistentDelta(n)) if n.as_str() == "k1"));
}

#[test]
fn secret_born_without_its_body_is_inconsistent() {
    let r = apply_delta(
        Table::new(),
        delta(&[("k1", RawStatus::Appeared)]),
        &vec![meta("k1", None, "a", Some("b1"))],
    );
    assert!(matches!(r, Err(DataError::InconsistentDelta(n)) if n.as_str() == "k1"));
    // a directory has no body to wait for
    let g = apply_delta(Table::new(), delta(&[("k1", RawStatus::Appeared)]), &vec![meta("k1", None, "a", None)]);
    assert!(g.is_ok());
}

#[test]
fn known_meta_appearing_again_is_born_already() {
    let t = table_with(vec![meta("k1", None, "a", None)], None);
    let opened = vec![meta("k1", None, "b", None)];
    let d = delta(&[("k1", RawStatus::Appeared)]);
    // nothing to open: the meta is known
    assert!(metas_to_open(&t, &d).is_empty());
    let g = apply_delta(t, d, &opened).unwrap();
    assert!(g.events.is_empty());
    assert_eq!(name_of(&g.table, "k1"), "a");
    let t = table_with(vec![meta("k1", None, "a", None)], None);
    let g = apply_delta(t, delta(&[("k1", RawStatus::Appeared)]), &Vec::new()).unwrap();
    assert!(g.events.is_empty());
}

#[test]
fn object_named_twice_is_inconsistent() {
    let t = table_with(vec![meta("k1", None, "a", None)], None);
    let r = apply_delta(
        t,
        delta(&[("k1", RawStatus::Disappeared), ("k1", RawStatus::Modified)]),
        &vec![meta("k1", None, "b", None)],
    );
    assert!(matches!(r, Err(DataError::InconsistentDelta(n)) if n.as_str() == "k1"));
    let t = table_with(vec![meta("k1", None, "a", Some("b1"))], None);
    let r = apply_delta(
        t,
        delta(&[("b1", RawStatus::Modified), ("k1", RawStatus::Modified), ("b1", RawStatus::Modified)]),
        &vec![meta("k1", None, "a", Some("b1"))],
    );
    assert!(matches!(r, Err(DataError::InconsistentDelta(n)) if n.as_str() == "b1"));
}

#[test]
fn unknown_object_that_disappears_is_gone_already() {
    let t = table_with(vec![meta("k1", None, "a", None)], None);
    let g = apply_delta(t, delta(&[("zz", RawStatus::Disappeared)]), &Vec::new()).unwrap();
    assert!(g.events.is_empty());
    assert_eq!(g.table.sorts.len(), 1);
    assert_eq!(g.table.nodes.len(), 1);
}

#[test]
fn applying_a_delta_twice_changes_nothing_the_second_time() {
    let t = table_with(
        vec![
            meta("k1", None, "d", None),
            meta("k2", Some("k1"), "s", Some("b2")),
            meta("k3", None, "t", Some("b3")),
        ],
        Some("m"),
    );
    let opened = vec![meta("k2", None, "s2", Some("b2")), meta("k4", Some("k1"), "n", Some("b4"))];
    let d = || {
        delta(&[
            ("k2", RawStatus::Modified),
            ("b2", RawStatus::Modified),
            ("k3", RawStatus::Disappeared),
            ("b3", RawStatus::Disappeared),
            ("k4", RawStatus::Appeared),
            ("b4", RawStatus::Appeared),
        ])
    };
    let first = apply_delta(t, d(), &opened).unwrap();
    let again = Table {
        sorts: first.table.sorts,
        nodes: first.table.nodes,
        children: first.table.children,
        mark: first.table.mark,
    };
    let snapshot = |t: &Table| {
        let sorts: Vec<String> = (0..t.sorts.len())
            .map(|i| format!("{:?}={:?}", t.sorts.key_at(i), t.sorts.value_at(i)))
            .collect();
        let nodes: Vec<String> = (0..t.nodes.len())
            .map(|i| format!("{:?}={:?}", t.nodes.key_at(i), t.nodes.value_at(i)))
            .collect();
        (sorts, nodes)
    };
    let before = snapshot(&again);
    let second = apply_delta(again, d(), &opened).unwrap();
    assert_eq!(snapshot(&second.table), before);
    assert_eq!(name_of(&second.table, "k2"), "s2");
    assert_eq!(name_of(&second.table, "k4"), "n");
    assert!(second.table.nodes.get(&id("k3")).is_none());
}

#[test]
fn newer_schema_or_unopened_meta_is_malformed() {
    let mut m = meta("k1", None, "a", None);
    m.schema = 2;
    let r = apply_delta(Table::new(), delta(&[("k1", RawStatus::Appeared)]), &vec![m]);
    // A newer schema cannot be read.
    assert!(matches!(r, Err(DataError::MalformedMeta(i)) if i.as_str() == "k1"));
    let t = table_with(vec![meta("k1", None, "a", None)], None);
    let r = apply_delta(t, delta(&[("k1", RawStatus::Modified)]), &Vec::new());
    assert!(matches!(r, Err(DataError::MalformedMeta(i)) if i.as_str() == "k1"));
}

#[test]
fn illegal_name_in_a_meta_is_a_data_error() {
    let r = apply_delta(
        Table::new(),
        delta(&[("k1", RawStatus::Appeared)]),
        &vec![meta("k1", None, "..", None)],
    );
    assert!(matches!(r, Err(DataError::IllegalName { id, raw }) if id.as_str() == "k1" && raw == ".."));
}

#[test]
fn applying_the_same_delta_to_the_same_table_gives_the_same_state() {
    let metas = vec![meta("k2", None, "x", None), meta("k1", Some("k2"), "y", Some("b1"))];
    let d = || delta(&[("k1", RawStatus::Appeared), ("b1", RawStatus::Appeared), ("k2", RawStatus::Appeared)]);
    let a = apply_delta(Table::new(), d(), &metas).unwrap();
    let b = apply_delta(Table::new(), d(), &metas).unwrap();
    assert_eq!(format!("{:?}", a.events), format!("{:?}", b.events));
    assert_eq!(name_of(&a.table, "k1"), name_of(&b.table, "k1"));
    assert_eq!(a.table.nodes.len(), b.table.nodes.len());
}

// ---------------------------------------------------------------- phase two

fn applied(t: Table, events: Vec<Event>) -> AppliedGraph {
    AppliedGraph { table: t, events }
}

#[test]
fn validate_keeps_a_sound_tree_and_derives_paths() {
    let t = table_with(
        vec![
            meta("k1", None, "work", None),
            meta("k2", Some("k1"), "mail", Some("b2")),
            meta("k3", Some("k1"), "bank", None),
        ],
        Some("m1"),
    );
    let v = validate(applied(t, Vec::new()), &Vec::new()).unwrap();
    assert!(v.resolutions.is_empty());
    assert_eq!(path(&v, "k2"), vec!["work", "mail"]);
    assert_eq!(path(&v, "k1"), vec!["work"]);
    assert!(path(&v, "nobody").is_empty());
}

#[test]
fn changed_body_link_is_refused() {
    let t = table_with(vec![meta("k1", None, "a", Some("b1"))], None);
    let opened = vec![meta("k1", None, "a", Some("b9"))];
    let g = apply_delta(t, delta(&[("k1", RawStatus::Modified)]), &opened).unwrap();
    // phase one keeps the link as born
    assert!(matches!(&g.table.nodes.get(&id("k1")).unwrap().meta.body, NodeBody::Secret(b) if b.as_str() == "b1"));
    let r = validate(g, &Vec::new());
    assert!(matches!(r, Err(DataError::MalformedMeta(i)) if i.as_str() == "k1"));
}

#[test]
fn orphan_gets_its_parent_resurrected_from_the_mark() {
    let t = table_with(
        vec![meta("k1", None, "dir", None), meta("k2", Some("k1"), "child", None)],
        Some("abc123"),
    );
    let g = apply_delta(t, delta(&[("k1", RawStatus::Disappeared)]), &Vec::new()).unwrap();
    let missing: Vec<String> = missing_parents(&g, &Vec::new()).unwrap().iter().map(|p| p.as_str().to_string()).collect();
    assert_eq!(missing, vec!["k1".to_string()]);
    let v = validate(g, &vec![meta("k1", None, "dir", None)]).unwrap();
    assert_eq!(v.resolutions.len(), 1);
    match &v.resolutions[0] {
        Resolution::ResurrectParent { parent, from } => {
            assert_eq!(parent.as_str(), "k1");
            assert_eq!(from.as_str(), "abc123");
        }
        other => panic!("{:?}", other),
    }
    // the child keeps its place, under the parent that came back
    assert_eq!(parent_of(&v.table, "k2"), Some("k1".to_string()));
    assert_eq!(name_of(&v.table, "k1"), "dir");
    assert!(matches!(v.table.sorts.get(&obj("k1")), Some(Sort::Meta(_))));
    assert_eq!(path(&v, "k2"), vec!["dir", "child"]);
}

#[test]
fn orphans_under_two_dead_parents_keep_distinct_paths() {
    let t = table_with(
        vec![
            meta("k0", None, "top", None),
            meta("k1", Some("k0"), "dir", None),
            meta("k2", Some("k1"), "same", None),
            meta("k3", None, "other", None),
            meta("k4", Some("k3"), "same", None),
        ],
        Some("m"),
    );
    let g = apply_delta(
        t,
        delta(&[("k0", RawStatus::Disappeared), ("k1", RawStatus::Disappeared), ("k3", RawStatus::Disappeared)]),
        &Vec::new(),
    )
    .unwrap();
    let missing: Vec<String> = missing_parents(&g, &Vec::new()).unwrap().iter().map(|p| p.as_str().to_string()).collect();
    assert_eq!(missing, vec!["k1".to_string(), "k3".to_string()]);
    // k1's meta names its own dead parent k0: the next call names it
    let first = vec![meta("k1", Some("k0"), "dir", None), meta("k3", None, "other", None)];
    let next: Vec<String> = missing_parents(&g, &first).unwrap().iter().map(|p| p.as_str().to_string()).collect();
    assert_eq!(next, vec!["k0".to_string()]);
    let mut all = first.clone();
    all.push(meta("k0", None, "top", None));
    assert!(missing_parents(&g, &all).unwrap().is_empty());
    let bad = vec![meta("k1", Some("k0"), "..", None)];
    assert!(matches!(missing_parents(&g, &bad), Err(DataError::IllegalName { .. })));
    let history = vec![
        meta("k1", Some("k0"), "dir", None),
        meta("k3", None, "other", None),
        meta("k0", None, "top", None),
        meta("k7", None, "unrelated", None),
    ];
    let v = validate(g, &history).unwrap();
    let back: Vec<String> = v
        .resolutions
        .iter()
        .map(|r| match r {
            Resolution::ResurrectParent { parent, .. } => parent.as_str().to_string(),
            other => panic!("{:?}", other),
        })
        .collect();
    assert_eq!(back, vec!["k1".to_string(), "k3".to_string(), "k0".to_string()]);
    assert!(v.table.nodes.get(&id("k7")).is_none());
    assert_eq!(path(&v, "k2"), vec!["top", "dir", "same"]);
    assert_eq!(path(&v, "k4"), vec!["other", "same"]);
}

#[test]
fn parent_that_history_does_not_hold_is_unknown() {
    let t = table_with(
        vec![meta("k1", None, "dir", None), meta("k2", Some("k1"), "child", None)],
        Some("m"),
    );
    let g = apply_delta(t, delta(&[("k1", RawStatus::Disappeared)]), &Vec::new()).unwrap();
    let r = validate(g, &Vec::new());
    assert!(matches!(r, Err(DataError::UnknownObject(n)) if n.as_str() == "k1"));
}

#[test]
fn resurrected_meta_with_an_illegal_name_is_refused() {
    let t = table_with(
        vec![meta("k1", None, "dir", None), meta("k2", Some("k1"), "child", None)],
        Some("m"),
    );
    let g = apply_delta(t, delta(&[("k1", RawStatus::Disappeared)]), &Vec::new()).unwrap();
    let r = validate(g, &vec![meta("k1", None, "a/b", None)]);
    assert!(matches!(r, Err(DataError::IllegalName { id, .. }) if id.as_str() == "k1"));
}

#[test]
fn orphan_without_a_mark_is_a_data_error() {
    let t = table_with(vec![meta("k2", Some("k1"), "child", None)], None);
    let r = validate(applied(t, Vec::new()), &Vec::new());
    assert!(matches!(r, Err(DataError::UnknownObject(n)) if n.as_str() == "k1"));
}

#[test]
fn cycle_is_broken_at_its_least_member() {
    let t = table_with(
        vec![
            meta("k3", Some("k5"), "c", None),
            meta("k5", Some("k4"), "e", None),
            meta("k4", Some("k3"), "d", None),
            meta("k9", Some("k4"), "leaf", None),
        ],
        Some("m"),
    );
    let v = validate(applied(t, Vec::new()), &Vec::new()).unwrap();
    assert_eq!(v.resolutions.len(), 1);
    match &v.resolutions[0] {
        Resolution::BreakCycle { loser, relocated_to } => {
            assert_eq!(loser.as_str(), "k3");
            assert!(matches!(relocated_to.parent, ParentRef::Root));
            assert_eq!(relocated_to.name.as_str(), "c~cycle");
        }
        other => panic!("{:?}", other),
    }
    assert_eq!(parent_of(&v.table, "k3"), None);
    assert_eq!(path(&v, "k9"), vec!["c~cycle", "d", "leaf"]);
    assert_eq!(path(&v, "k5"), vec!["c~cycle", "d", "e"]);
}

fn renames(v: &lib::ValidatedState) -> Vec<(String, String)> {
    v.resolutions
        .iter()
        .map(|r| match r {
            Resolution::RenameLoser { loser, new_name } => {
                (loser.as_str().to_string(), new_name.as_str().to_string())
            }
            other => panic!("{:?}", other),
        })
        .collect()
}

#[test]
fn duplicate_places_get_deterministic_suffixes() {
    let t = table_with(
        vec![
            meta("k2", None, "x", None),
            meta("k1", None, "x", None),
            meta("k3", None, "x", None),
            meta("k4", None, "x~", None),
        ],
        Some("m"),
    );
    let v = validate(applied(t, Vec::new()), &Vec::new()).unwrap();
    assert_eq!(name_of(&v.table, "k1"), "x");
    assert_eq!(name_of(&v.table, "k2"), "x~~");
    assert_eq!(name_of(&v.table, "k3"), "x~~~");
    // uncontested: keeps its place
    assert_eq!(name_of(&v.table, "k4"), "x~");
    assert_eq!(
        renames(&v),
        vec![("k2".to_string(), "x~~".to_string()), ("k3".to_string(), "x~~~".to_string())]
    );
}

#[test]
fn only_real_losers_are_renamed() {
    let t = table_with(
        vec![
            meta("k1", None, "x", None),
            meta("k2", None, "x", None),
            meta("k3", None, "x~", None),
            meta("k4", None, "x~", None),
        ],
        Some("m"),
    );
    let v = validate(applied(t, Vec::new()), &Vec::new()).unwrap();
    assert_eq!(name_of(&v.table, "k1"), "x");
    assert_eq!(name_of(&v.table, "k3"), "x~");
    assert_eq!(name_of(&v.table, "k2"), "x~~");
    assert_eq!(name_of(&v.table, "k4"), "x~~~");
    assert_eq!(
        renames(&v),
        vec![("k2".to_string(), "x~~".to_string()), ("k4".to_string(), "x~~~".to_string())]
    );
}

#[test]
fn same_name_under_different_parents_is_no_collision() {
    let t = table_with(
        vec![
            meta("k1", None, "a", None),
            meta("k2", None, "b", None),
            meta("k3", Some("k1"), "same", None),
            meta("k4", Some("k2"), "same", None),
        ],
        None,
    );
    let v = validate(applied(t, Vec::new()), &Vec::new()).unwrap();
    assert!(v.resolutions.is_empty());
    assert_eq!(path(&v, "k3"), vec!["a", "same"]);
    assert_eq!(path(&v, "k4"), vec!["b", "same"]);
}

#[test]
fn validation_is_the_same_on_every_device() {
    let build = |order: &[usize]| {
        let all = vec![
            meta("k1", None, "x", None),
            meta("k2", None, "x", None),
            meta("k3", Some("k4"), "c", None),
            meta("k4", Some("k3"), "d", None),
        ];
        let metas: Vec<OpenedMeta> = order.iter().map(|i| all[*i].clone()).collect();
        table_with(metas, Some("m"))
    };
    let a = validate(applied(build(&[0, 1, 2, 3]), Vec::new()), &Vec::new()).unwrap();
    let b = validate(applied(build(&[3, 2, 1, 0]), Vec::new()), &Vec::new()).unwrap();
    assert_eq!(format!("{:?}", a.resolutions), format!("{:?}", b.resolutions));
    for k in ["k1", "k2", "k3", "k4"] {
        assert_eq!(name_of(&a.table, k), name_of(&b.table, k));
        assert_eq!(path(&a, k), path(&b, k));
    }
}

#[test]
fn reindex_lists_children_in_order_of_identity() {
    let t = table_with(
        vec![
            meta("k1", None, "d", None),
            meta("k9", Some("k1"), "z", None),
            meta("k5", Some("k1"), "y", None),
            meta("k7", Some("k1"), "x", None),
        ],
        None,
    );
    let kids: Vec<String> = t
        .children
        .get(&ParentRef::Node(id("k1")))
        .unwrap()
        .iter()
        .map(|i| i.as_str().to_string())
        .collect();
    assert_eq!(kids, vec!["k5", "k7", "k9"]);
    let roots = t.children.get(&ParentRef::Root).unwrap();
    assert_eq!(roots.len(), 1);
}

#[test]
fn apply_keeps_sorts_and_nodes_in_agreement() {
    let t = table_with(
        vec![
            meta("k1", None, "d", None),
            meta("k2", Some("k1"), "s", Some("b2")),
            meta("k3", None, "t", Some("b3")),
        ],
        Some("m"),
    );
    let opened = vec![meta("k2", None, "s2", Some("b2")), meta("k4", Some("k1"), "n", Some("b4"))];
    let g = apply_delta(
        t,
        delta(&[
            ("k2", RawStatus::Modified),
            ("k3", RawStatus::Disappeared),
            ("b3", RawStatus::Disappeared),
            ("k4", RawStatus::Appeared),
            ("b4", RawStatus::Appeared),
        ]),
        &opened,
    )
    .unwrap();
    for i in 0..g.table.nodes.len() {
        let k = g.table.nodes.key_at(i);
        match g.table.sorts.get(&k.object()) {
            Some(Sort::Meta(m)) => assert_eq!(m.as_str(), k.as_str()),
            other => panic!("{:?}", other),
        }
    }
    for i in 0..g.table.sorts.len() {
        let name = g.table.sorts.key_at(i);
        match g.table.sorts.value_at(i) {
            Sort::Meta(m) => {
                assert_eq!(m.as_str(), name.as_str());
                assert!(g.table.nodes.contains(m));
            }
            Sort::Body(b) => assert_eq!(b.as_str(), name.as_str()),
            Sort::Chaff => {}
        }
    }
    assert!(!g.table.nodes.contains(&id("k3")));
    assert!(g.table.sorts.get(&obj("b3")).is_none());
    assert_eq!(g.table.nodes.len(), 3);
    assert_eq!(g.table.sorts.len(), 5);
    let v = validate(g, &Vec::new()).unwrap();
    assert_eq!(v.table.nodes.len(), 3);
    assert_eq!(v.table.sorts.len(), 5);
}

#[test]
fn sorted_map_keeps_keys_in_order() {
    let mut m: lib::SortedMap<ObjectName, u32> = lib::SortedMap::new();
    for (k, v) in [("c", 3), ("a", 1), ("b", 2), ("a", 10)] {
        m.insert(obj(k), v);
    }
    let keys: Vec<&str> = (0..m.len()).map(|i| m.key_at(i).as_str()).collect();
    assert_eq!(keys, vec!["a", "b", "c"]);
    assert_eq!(m.get(&obj("a")), Some(&10));
    m.remove(&obj("b"));
    assert_eq!(m.len(), 2);
    assert_eq!(m.get(&obj("b")), None);
    assert_eq!(m.find(&obj("c")), Some(1));
}

#[test]
fn schema_version_current_is_one() {
    assert_eq!(lib::SchemaVersion::current().0, lib::CURRENT_SCHEMA_NUMBER);
    assert_eq!(lib::CURRENT_SCHEMA_NUMBER, 1);
}

#[test]
fn cycle_loser_moves_to_a_free_root_name() {
    let t = table_with(
        vec![
            meta("k3", Some("k5"), "c", None),
            meta("k5", Some("k3"), "e", None),
            meta("k1", None, "c~cycle", None),
        ],
        Some("m"),
    );
    let v = validate(applied(t, Vec::new()), &Vec::new()).unwrap();
    assert_eq!(v.resolutions.len(), 1);
    match &v.resolutions[0] {
        Resolution::BreakCycle { loser, relocated_to } => {
            assert_eq!(loser.as_str(), "k3");
            assert_eq!(relocated_to.name.as_str(), "c~cycle~");
            // the record says where the loser is
            assert_eq!(name_of(&v.table, "k3"), "c~cycle~");
            assert_eq!(parent_of(&v.table, "k3"), None);
        }
        other => panic!("{:?}", other),
    }
    // the node that held the marked name keeps it
    assert_eq!(name_of(&v.table, "k1"), "c~cycle");
    assert_eq!(path(&v, "k5"), vec!["c~cycle~", "e"]);
}

#[test]
fn moving_a_directory_changes_only_the_paths_under_it() {
    let metas = vec![
        meta("k1", None, "work", None),
        meta("k2", Some("k1"), "mail", Some("b2")),
        meta("k3", None, "home", None),
        meta("k4", Some("k3"), "bank", None),
    ];
    let t = table_with(metas, Some("m"));
    let before = validate(applied(t, Vec::new()), &Vec::new()).unwrap();
    assert_eq!(path(&before, "k2"), vec!["work", "mail"]);
    let t = Table {
        sorts: before.table.sorts,
        nodes: before.table.nodes,
        children: before.table.children,
        mark: before.table.mark,
    };
    let g = apply_delta(t, delta(&[("k1", RawStatus::Modified)]), &vec![meta("k1", Some("k3"), "job", None)])
        .unwrap();
    let after = validate(g, &Vec::new()).unwrap();
    assert_eq!(path(&after, "k1"), vec!["home", "job"]);
    assert_eq!(path(&after, "k2"), vec!["home", "job", "mail"]);
    assert_eq!(path(&after, "k4"), vec!["home", "bank"]);
    assert_eq!(path(&after, "k3"), vec!["home"]);
}

#[test]
fn a_full_pass_rebuilds_the_table_the_deltas_reached() {
    let t = table_with(
        vec![
            meta("k1", None, "d", None),
            meta("k2", Some("k1"), "s", Some("b2")),
            meta("k3", None, "t", Some("b3")),
        ],
        Some("m"),
    );
    let opened = vec![meta("k2", None, "s2", Some("b2")), meta("k4", Some("k1"), "n", Some("b4"))];
    let g = apply_delta(
        t,
        delta(&[
            ("k2", RawStatus::Modified),
            ("k3", RawStatus::Disappeared),
            ("b3", RawStatus::Disappeared),
            ("k4", RawStatus::Appeared),
            ("b4", RawStatus::Appeared),
        ]),
        &opened,
    )
    .unwrap();
    let reached = g.table;
    // every object the table holds appears, and every node's meta opens as it is
    let mut entries: Vec<(ObjectName, RawStatus)> = Vec::new();
    let mut metas: Vec<OpenedMeta> = Vec::new();
    for i in 0..reached.sorts.len() {
        entries.push((reached.sorts.key_at(i).clone(), RawStatus::Appeared));
    }
    for i in 0..reached.nodes.len() {
        let k = reached.nodes.key_at(i);
        let e = reached.nodes.value_at(i);
        metas.push(OpenedMeta {
            object: k.object(),
            schema: e.meta.schema.0,
            parent: match &e.meta.place.parent {
                ParentRef::Root => None,
                ParentRef::Node(p) => Some(p.object()),
            },
            name: e.meta.place.name.as_str().to_string(),
            body: match &e.meta.body {
                NodeBody::Secret(b) => Some(b.object()),
                NodeBody::Directory => None,
            },
        });
    }
    let full = apply_delta(Table::new(), RawDelta(entries), &metas).unwrap();
    let show = |t: &Table| {
        let sorts: Vec<String> = (0..t.sorts.len())
            .map(|i| format!("{:?}={:?}", t.sorts.key_at(i), t.sorts.value_at(i)))
            .collect();
        let nodes: Vec<String> = (0..t.nodes.len())
            .map(|i| format!("{:?}={:?}", t.nodes.key_at(i), t.nodes.value_at(i).meta))
            .collect();
        (sorts, nodes)
    };
    assert_eq!(show(&full.table), show(&reached));
    assert_eq!(full.table.nodes.len(), 3);
}

#[test]
fn conflicts_of_the_transport_become_concurrent_edits() {
    let out = lib::PullOutcome::Conflicted { objects: vec![obj("k1"), obj("b2")] };
    let v = lib::concurrent_edits(&out);
    let objects: Vec<String> = v
        .iter()
        .map(|g| match g {
            lib::GraphViolation::ConcurrentEdit { object } => object.as_str().to_string(),
            other => panic!("{:?}", other),
        })
        .collect();
    assert_eq!(objects, vec!["k1".to_string(), "b2".to_string()]);
    let clean = lib::PullOutcome::Clean { head: SyncMark::new("h".to_string()) };
    assert!(lib::concurrent_edits(&clean).is_empty());
}

#[test]
fn every_event_is_named_by_an_entry_of_its_kind() {
    let t = table_with(
        vec![
            meta("k1", None, "d", None),
            meta("k2", Some("k1"), "s", Some("b2")),
            meta("k3", None, "t", Some("b3")),
        ],
        Some("m"),
    );
    let opened = vec![meta("k2", None, "s2", Some("b2")), meta("k4", Some("k1"), "n", Some("b4"))];
    let entries = [
        ("k1", RawStatus::Appeared),
        ("k2", RawStatus::Modified),
        ("b2", RawStatus::Modified),
        ("k3", RawStatus::Disappeared),
        ("b3", RawStatus::Disappeared),
        ("k4", RawStatus::Appeared),
        ("b4", RawStatus::Appeared),
    ];
    let g = apply_delta(t, delta(&entries), &opened).unwrap();
    let named: Vec<(String, RawStatus)> = g
        .events
        .iter()
        .map(|e| match e {
            Event::NodeBorn { id, .. } => (id.as_str().to_string(), RawStatus::Appeared),
            Event::MetaChanged { id, .. } => (id.as_str().to_string(), RawStatus::Modified),
            Event::NodeDied { id } => (id.as_str().to_string(), RawStatus::Disappeared),
            Event::ContentChanged { body } => (body.as_str().to_string(), RawStatus::Modified),
            Event::BodyArrived { body } => (body.as_str().to_string(), RawStatus::Appeared),
            Event::BodyGone { body } => (body.as_str().to_string(), RawStatus::Disappeared),
        })
        .collect();
    // metas first, in the order of the delta, then bodies; the known k1 that appears is born already
    assert_eq!(
        named,
        vec![
            ("k2".to_string(), RawStatus::Modified),
            ("k3".to_string(), RawStatus::Disappeared),
            ("k4".to_string(), RawStatus::Appeared),
            ("b2".to_string(), RawStatus::Modified),
            ("b3".to_string(), RawStatus::Disappeared),
            ("b4".to_string(), RawStatus::Appeared),
        ]
    );
}

#[test]
fn body_link_of_a_parent_brought_back_is_the_one_it_was_born_with() {
    let t = table_with(
        vec![meta("k1", None, "dir", None), meta("k2", Some("k1"), "child", None)],
        Some("m"),
    );
    let g = apply_delta(t, delta(&[("k1", RawStatus::Disappeared)]), &Vec::new()).unwrap();
    let v = validate(g, &vec![meta("k1", None, "dir", None)]).unwrap();
    assert!(matches!(v.table.nodes.get(&id("k1")).unwrap().meta.body, NodeBody::Directory));
}

#[test]
fn losing_versions_become_copies_at_free_places() {
    let t = table_with(
        vec![
            meta("k1", None, "d", None),
            meta("k2", Some("k1"), "s", Some("b2")),
            meta("k3", Some("k1"), "s~", None),
        ],
        Some("m"),
    );
    let v = validate(applied(t, Vec::new()), &Vec::new()).unwrap();
    let losing = vec![
        lib::LosingVersion { object: obj("b2"), original: id("k2"), copy: obj("c1"), copy_body: Some(obj("cb1")) },
        lib::LosingVersion { object: obj("k1"), original: id("k1"), copy: obj("c2"), copy_body: None },
    ];
    let v = lib::conflict_copies(v, &losing).unwrap();
    // "s~" is held by k3, so the copy of k2 takes "s~~"
    assert_eq!(name_of(&v.table, "c1"), "s~~");
    assert_eq!(parent_of(&v.table, "c1"), Some("k1".to_string()));
    assert!(matches!(&v.table.nodes.get(&id("c1")).unwrap().meta.body, NodeBody::Secret(b) if b.as_str() == "cb1"));
    assert!(matches!(v.table.sorts.get(&obj("cb1")), Some(Sort::Body(_))));
    assert_eq!(name_of(&v.table, "c2"), "d~");
    assert_eq!(parent_of(&v.table, "c2"), None);
    let recs: Vec<(String, String, String)> = v
        .resolutions
        .iter()
        .map(|r| match r {
            Resolution::ConflictCopy { original, copy, copy_place } => (
                original.as_str().to_string(),
                copy.as_str().to_string(),
                copy_place.name.as_str().to_string(),
            ),
            other => panic!("{:?}", other),
        })
        .collect();
    assert_eq!(
        recs,
        vec![
            ("k2".to_string(), "c1".to_string(), "s~~".to_string()),
            ("k1".to_string(), "c2".to_string(), "d~".to_string()),
        ]
    );
    assert_eq!(path(&v, "c1"), vec!["d", "s~~"]);
}

#[test]
fn copies_that_do_not_fit_are_refused() {
    let build = || {
        let t = table_with(
            vec![meta("k1", None, "d", None), meta("k2", Some("k1"), "s", Some("b2"))],
            Some("m"),
        );
        validate(applied(t, Vec::new()), &Vec::new()).unwrap()
    };
    // the object does not belong to the node named
    let r = lib::conflict_copies(
        build(),
        &vec![lib::LosingVersion { object: obj("b2"), original: id("k1"), copy: obj("c1"), copy_body: None }],
    );
    assert!(matches!(r, Err(DataError::UnknownObject(n)) if n.as_str() == "b2"));
    // the copy's name is taken
    let r = lib::conflict_copies(
        build(),
        &vec![lib::LosingVersion { object: obj("k1"), original: id("k1"), copy: obj("k2"), copy_body: None }],
    );
    assert!(matches!(r, Err(DataError::InconsistentDelta(n)) if n.as_str() == "k2"));
    // a secret's copy needs a body of its own
    let r = lib::conflict_copies(
        build(),
        &vec![lib::LosingVersion { object: obj("k2"), original: id("k2"), copy: obj("c1"), copy_body: None }],
    );
    assert!(matches!(r, Err(DataError::InconsistentDelta(n)) if n.as_str() == "c1"));
}
