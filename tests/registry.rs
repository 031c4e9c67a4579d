use again::registry::{ListEntry, Registry, RenameOutcome};

fn s(t: &str) -> String {
    t.to_string()
}

fn shown(entries: &[ListEntry]) -> Vec<(String, String, String)> {
    entries
        .iter()
        .map(|e| (e.scope.clone(), e.alias.clone(), e.command.clone()))
        .collect()
}

#[test]
fn saved_alias_is_listed_alone() {
    let mut r = Registry::new();
    r.set(s("gs"), Some(s("  git status ")), false, &s("/home/me"));
    let l = r.list(true, &s("/home/me"));
    assert_eq!(shown(&l), vec![(s(""), s("gs"), s("git status"))]);
}

#[test]
fn command_is_trimmed_on_save() {
    let mut r = Registry::new();
    let rep = r.set(s("b"), Some(s("\t cargo build \n")), false, &s("/"));
    assert_eq!(rep.current, Some(s("cargo build")));
    assert_eq!(r.resolve(&s("b")), Some(s("cargo build")));
}

#[test]
fn blank_command_deletes_like_none() {
    let mut a = Registry::new();
    let mut b = Registry::new();
    a.set(s("x"), Some(s("echo x")), false, &s("/"));
    b.set(s("x"), Some(s("echo x")), false, &s("/"));
    let ra = a.set(s("x"), Some(s("   ")), false, &s("/"));
    let rb = b.set(s("x"), None, false, &s("/"));
    assert_eq!(ra.previous, Some(s("echo x")));
    assert_eq!(rb.previous, Some(s("echo x")));
    assert_eq!(ra.current, None);
    assert_eq!(rb.current, None);
    assert_eq!(a.resolve(&s("x")), None);
    assert_eq!(b.resolve(&s("x")), None);
    assert_eq!(a.to_tables(), b.to_tables());
}

#[test]
fn blank_command_on_missing_alias_is_noop() {
    let mut r = Registry::new();
    r.set(s("y"), Some(s("ls")), false, &s("/"));
    let rep = r.set(s("x"), Some(s("   ")), false, &s("/"));
    assert_eq!(rep.previous, None);
    assert_eq!(r.resolve(&s("x")), None);
    assert_eq!(r.resolve(&s("y")), Some(s("ls")));
}

#[test]
fn local_alias_scope_and_visibility() {
    let mut r = Registry::new();
    let rep = r.set(s("build"), Some(s("make")), true, &s("/proj"));
    assert_eq!(rep.scope_change, Some((None, s("/proj"))));
    assert_eq!(shown(&r.list(false, &s("/proj/sub"))), vec![(s("/proj"), s("build"), s("make"))]);
    assert_eq!(shown(&r.list(false, &s("/proj"))).len(), 1);
    assert!(r.list(false, &s("/tmp")).is_empty());
    assert!(r.list(false, &s("/projects")).is_empty());
    assert_eq!(shown(&r.list(true, &s("/tmp"))), vec![(s("/proj"), s("build"), s("make"))]);
}

#[test]
fn rename_moves_command() {
    let mut r = Registry::new();
    r.set(s("a"), Some(s("echo a")), false, &s("/"));
    match r.rename(&s("a"), s("b")) {
        RenameOutcome::Moved(c) => assert_eq!(c, s("echo a")),
        _ => panic!("expected a move"),
    }
    assert_eq!(r.resolve(&s("a")), None);
    assert_eq!(r.resolve(&s("b")), Some(s("echo a")));
}

#[test]
fn rename_onto_existing_reports_it() {
    let mut r = Registry::new();
    r.set(s("a"), Some(s("echo a")), false, &s("/"));
    r.set(s("b"), Some(s("echo b")), false, &s("/"));
    match r.rename(&s("a"), s("b")) {
        RenameOutcome::Taken(c) => assert_eq!(c, s("echo b")),
        _ => panic!("expected the destination to be reported"),
    }
    assert_eq!(r.resolve(&s("a")), Some(s("echo a")));
    assert_eq!(r.resolve(&s("b")), Some(s("echo b")));
}

#[test]
fn rename_missing_source() {
    let mut r = Registry::new();
    r.set(s("b"), Some(s("echo b")), false, &s("/"));
    let before = r.to_tables();
    assert!(matches!(r.rename(&s("a"), s("c")), RenameOutcome::Missing));
    assert_eq!(r.to_tables(), before);
}

#[test]
fn rename_does_not_move_scope() {
    let mut r = Registry::new();
    r.set(s("a"), Some(s("make")), true, &s("/proj"));
    r.rename(&s("a"), s("b"));
    assert_eq!(shown(&r.list(true, &s("/"))), vec![(s(""), s("b"), s("make"))]);
}

#[test]
fn tables_round_trip() {
    let mut r = Registry::new();
    r.set(s("gs"), Some(s("git status")), false, &s("/"));
    r.set(s("build"), Some(s("make")), true, &s("/proj"));
    let (c, l) = r.to_tables();
    let back = Registry::from_tables(c.clone(), l.clone());
    let (c2, l2) = back.to_tables();
    let mut c_sorted = c.clone();
    let mut c2_sorted = c2.clone();
    c_sorted.sort();
    c2_sorted.sort();
    let mut l_sorted = l.clone();
    let mut l2_sorted = l2.clone();
    l_sorted.sort();
    l2_sorted.sort();
    assert_eq!(c_sorted, c2_sorted);
    assert_eq!(l_sorted, l2_sorted);
}

#[test]
fn from_tables_later_pair_wins() {
    let r = Registry::from_tables(vec![(s("a"), s("one")), (s("a"), s("two"))], vec![]);
    assert_eq!(r.resolve(&s("a")), Some(s("two")));
    assert_eq!(r.list(true, &s("/")).len(), 1);
}

#[test]
fn listing_is_sorted_by_scope_then_alias() {
    let mut r = Registry::new();
    r.set(s("zz"), Some(s("z")), false, &s("/"));
    r.set(s("aa"), Some(s("a")), false, &s("/"));
    r.set(s("mm"), Some(s("m")), true, &s("/b"));
    r.set(s("bb"), Some(s("b")), true, &s("/a"));
    let l = shown(&r.list(true, &s("/")));
    assert_eq!(
        l,
        vec![
            (s(""), s("aa"), s("a")),
            (s(""), s("zz"), s("z")),
            (s("/a"), s("bb"), s("b")),
            (s("/b"), s("mm"), s("m")),
        ]
    );
}

#[test]
fn delete_then_save_unscoped_resets_stale_scope() {
    let mut r = Registry::new();
    r.set(s("t"), Some(s("make test")), true, &s("/proj"));
    r.set(s("t"), None, false, &s("/proj"));
    r.set(s("t"), Some(s("cargo test")), false, &s("/elsewhere"));
    assert_eq!(shown(&r.list(false, &s("/elsewhere"))), vec![(s(""), s("t"), s("cargo test"))]);
}

#[test]
fn scope_change_reported_only_when_different() {
    let mut r = Registry::new();
    let first = r.set(s("a"), Some(s("x")), false, &s("/"));
    assert_eq!(first.scope_change, Some((None, s(""))));
    let second = r.set(s("a"), Some(s("y")), false, &s("/"));
    assert_eq!(second.scope_change, None);
    assert_eq!(second.previous, Some(s("x")));
    let third = r.set(s("a"), Some(s("y")), true, &s("/w"));
    assert_eq!(third.scope_change, Some((Some(s("")), s("/w"))));
}

#[test]
fn current_text_for_edit() {
    let mut r = Registry::new();
    assert_eq!(r.current_text(&s("e")), s(""));
    r.set(s("e"), Some(s("vim")), false, &s("/"));
    assert_eq!(r.current_text(&s("e")), s("vim"));
}

#[test]
fn scenario_save_list_run_delete() {
    let mut r = Registry::new();
    r.set(s("gs"), Some(s("git status")), false, &s("/home"));
    let l = r.list(false, &s("/home"));
    assert_eq!(shown(&l), vec![(s(""), s("gs"), s("git status"))]);
    assert_eq!(r.resolve(&s("gs")), Some(s("git status")));
    r.set(s("gs"), None, false, &s("/home"));
    assert!(r.list(false, &s("/home")).is_empty());
    assert_eq!(r.resolve(&s("gs")), None);
}

#[test]
fn scenario_local_build_alias() {
    let mut r = Registry::new();
    r.set(s("build"), Some(s("cargo build")), true, &s("/proj"));
    assert_eq!(shown(&r.list(false, &s("/proj/sub"))), vec![(s("/proj"), s("build"), s("cargo build"))]);
    assert!(r.list(false, &s("/tmp")).is_empty());
    assert_eq!(shown(&r.list(true, &s("/tmp"))), vec![(s("/proj"), s("build"), s("cargo build"))]);
}

#[test]
fn scopes_are_ordered_as_paths() {
    let mut r = Registry::new();
    r.set(s("dash"), Some(s("d")), true, &s("/a-b"));
    r.set(s("slash"), Some(s("s")), true, &s("/a/b"));
    r.set(s("old"), Some(s("o")), true, &s("/proj-old"));
    r.set(s("sub"), Some(s("u")), true, &s("/proj/sub"));
    let l = shown(&r.list(true, &s("/")));
    assert_eq!(
        l,
        vec![
            (s("/a/b"), s("slash"), s("s")),
            (s("/a-b"), s("dash"), s("d")),
            (s("/proj/sub"), s("sub"), s("u")),
            (s("/proj-old"), s("old"), s("o")),
        ]
    );
}

#[test]
fn equal_paths_are_ordered_by_alias() {
    let mut r = Registry::new();
    r.set(s("b"), Some(s("x")), true, &s("/proj"));
    r.set(s("a"), Some(s("y")), true, &s("/proj/"));
    let l = shown(&r.list(true, &s("/")));
    assert_eq!(l, vec![(s("/proj/"), s("a"), s("y")), (s("/proj"), s("b"), s("x"))]);
}

#[test]
fn scope_with_trailing_separator_contains_subdirectory() {
    let mut r = Registry::new();
    r.set(s("t"), Some(s("make")), true, &s("/proj/"));
    assert_eq!(r.list(false, &s("/proj/sub")).len(), 1);
    assert!(r.list(false, &s("/proj-old")).is_empty());
}

#[test]
fn edited_text_of_only_a_newline_deletes() {
    let mut r = Registry::new();
    r.set(s("e"), Some(s("vim")), false, &s("/"));
    let rep = r.set(s("e"), Some(s("\n")), false, &s("/"));
    assert_eq!(rep.previous, Some(s("vim")));
    assert_eq!(r.resolve(&s("e")), None);
}

#[test]
fn delete_with_local_keeps_a_scope_without_command() {
    let mut r = Registry::new();
    r.set(s("k"), Some(s("ls")), false, &s("/"));
    r.set(s("k"), None, true, &s("/proj"));
    let (commands, scopes) = r.to_tables();
    assert!(commands.is_empty());
    assert_eq!(scopes, vec![(s("k"), s("/proj"))]);
}
