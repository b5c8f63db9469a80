use storm::repo::{
    parse_enabled, parse_precedence, string_or_seq, DummyRepo, GentooRepo, Repo, RepoConfig, RepoError,
    SyncType,
};
use storm::config::ConfigError;
use storm::codec::parse;
use storm::text::{remove_all, sort_names, str_eq, str_lt};
use storm::value::ConfigValue;

fn names(list: &[&str]) -> Vec<String> {
    list.iter().map(|s| s.to_string()).collect()
}

fn gentoo() -> Repo {
    Repo::Gentoo(GentooRepo {
        location: "/var/db/repos/gentoo".to_string(),
        sync_type: SyncType::Git,
        sync_uri: "https://example.org/gentoo.git".to_string(),
    })
}

fn registry(default_repos: &[&str], repos: Vec<(&str, Repo)>) -> RepoConfig {
    let mut r = RepoConfig::new();
    for (name, repo) in repos {
        r.insert(name.to_string(), repo);
    }
    for name in default_repos {
        assert_eq!(r.set_default(name.to_string(), true, false), Ok(()));
    }
    r
}

fn consistent(r: &RepoConfig) -> bool {
    r.list(false, true).iter().all(|n| r.contains(n))
}

#[test]
fn new_registry_is_empty() {
    let r = RepoConfig::new();
    assert_eq!(r.list(true, false), names(&[]));
    assert_eq!(r.list(false, true), names(&[]));
}

#[test]
fn default_registry_holds_the_dummy() {
    let r = RepoConfig::default();
    assert_eq!(r.list(true, false), names(&["dummy"]));
    assert_eq!(r.list(false, true), names(&["dummy"]));
    assert_eq!(r.get("dummy"), Some(&Repo::Dummy(DummyRepo)));
}

#[test]
fn list_sorts_all_names_but_never_the_defaults() {
    let r = registry(&["zeta", "alpha"], vec![("zeta", gentoo()), ("mid", gentoo()), ("alpha", gentoo())]);
    assert_eq!(r.list(true, false), names(&["alpha", "mid", "zeta"]));
    assert_eq!(r.list(false, true), names(&["zeta", "alpha"]));
    assert_eq!(r.list(true, true), names(&["zeta", "alpha"]));
    let mut unsorted = r.list(false, false);
    unsorted.sort();
    assert_eq!(unsorted, names(&["alpha", "mid", "zeta"]));
}

#[test]
fn add_knows_the_backend_kinds() {
    let mut r = RepoConfig::new();
    assert_eq!(r.add("a".to_string(), "dummy"), Ok(()));
    assert_eq!(r.add("b".to_string(), "gentoo"), Ok(()));
    assert_eq!(r.add("c".to_string(), "portage"), Err(RepoError::NoSuchBackendKind));
    assert_eq!(r.add("d".to_string(), ""), Err(RepoError::NoSuchBackendKind));
    assert_eq!(r.list(true, false), names(&["a", "b"]));
    assert_eq!(r.get("a"), Some(&Repo::Dummy(DummyRepo)));
    assert_eq!(r.get("b"), Some(&Repo::Gentoo(GentooRepo::default())));
    assert_eq!(r.get("c"), None);
}

#[test]
fn backend_defaults() {
    let g = GentooRepo::default();
    assert_eq!(g.location, "");
    assert_eq!(g.sync_type, SyncType::Rsync);
    assert_eq!(g.sync_uri, "");
    assert_eq!(SyncType::default(), SyncType::Rsync);
    assert_eq!(Repo::from_kind("dummy"), Ok(Repo::Dummy(DummyRepo)));
    assert_eq!(Repo::from_kind("Dummy"), Err(RepoError::NoSuchBackendKind));
}

#[test]
fn add_overwrites_silently() {
    let mut r = registry(&["a"], vec![("a", gentoo())]);
    assert_eq!(r.add("a".to_string(), "dummy"), Ok(()));
    assert_eq!(r.get("a"), Some(&Repo::Dummy(DummyRepo)));
    assert_eq!(r.list(true, false), names(&["a"]));
    assert_eq!(r.list(false, true), names(&["a"]));
}

#[test]
fn remove_example() {
    let mut r = registry(&["a", "b"], vec![("a", gentoo()), ("b", Repo::Dummy(DummyRepo))]);
    assert_eq!(r.remove("a"), Ok(()));
    assert_eq!(r.list(true, false), names(&["b"]));
    assert_eq!(r.get("b"), Some(&Repo::Dummy(DummyRepo)));
    assert_eq!(r.get("a"), None);
    assert_eq!(r.list(false, true), names(&["b"]));
    assert_eq!(r.remove("a"), Err(RepoError::NoSuchRepo));
    assert_eq!(r.list(true, false), names(&["b"]));
    assert_eq!(r.list(false, true), names(&["b"]));
}

#[test]
fn rename_propagation() {
    let mut r = registry(&["a"], vec![("a", gentoo())]);
    assert_eq!(r.rename("a", "b"), Ok(()));
    assert_eq!(r.list(true, false), names(&["b"]));
    assert_eq!(r.get("b"), Some(&gentoo()));
    assert_eq!(r.get("a"), None);
    assert_eq!(r.list(false, true), names(&["b"]));
}

#[test]
fn rename_keeps_the_place_among_the_defaults() {
    let mut r = registry(
        &["x", "a", "y"],
        vec![("a", gentoo()), ("x", Repo::Dummy(DummyRepo)), ("y", Repo::Dummy(DummyRepo))],
    );
    assert_eq!(r.rename("a", "b"), Ok(()));
    assert_eq!(r.list(false, true), names(&["x", "b", "y"]));
    assert_eq!(r.list(true, false), names(&["b", "x", "y"]));
    assert_eq!(r.rename("x", "z"), Ok(()));
    assert_eq!(r.list(false, false), names(&["b", "z", "y"]));
    assert_eq!(r.list(false, true), names(&["z", "b", "y"]));
}

#[test]
fn rename_of_a_missing_repository_fails() {
    let mut r = registry(&["a"], vec![("a", gentoo())]);
    assert_eq!(r.rename("nope", "b"), Err(RepoError::NoSuchRepo));
    assert_eq!(r.rename("nope", "a"), Err(RepoError::NoSuchRepo));
    assert_eq!(r.list(true, false), names(&["a"]));
    assert_eq!(r.list(false, true), names(&["a"]));
}

#[test]
fn rename_to_the_same_name_changes_nothing() {
    let mut r = registry(&["a"], vec![("a", gentoo())]);
    let before = r.clone();
    assert_eq!(r.rename("a", "a"), Ok(()));
    assert_eq!(r, before);
    assert_eq!(r.list(true, false), names(&["a"]));
    assert_eq!(r.get("a"), Some(&gentoo()));
    assert_eq!(r.list(false, true), names(&["a"]));
}

#[test]
fn set_default_puts_the_name_first_or_last() {
    let mut r = registry(&["a", "b"], vec![("a", gentoo()), ("b", gentoo()), ("c", gentoo())]);
    assert_eq!(r.set_default("c".to_string(), true, true), Ok(()));
    assert_eq!(r.list(false, true), names(&["c", "a", "b"]));
    assert_eq!(r.set_default("c".to_string(), true, false), Ok(()));
    assert_eq!(r.list(false, true), names(&["a", "b", "c"]));
    assert_eq!(r.set_default("b".to_string(), false, true), Ok(()));
    assert_eq!(r.list(false, true), names(&["a", "c"]));
    assert_eq!(r.set_default("b".to_string(), false, false), Ok(()));
    assert_eq!(r.list(false, true), names(&["a", "c"]));
}

#[test]
fn set_default_twice_is_set_default_once() {
    let mut r = registry(&["a", "b"], vec![("a", gentoo()), ("b", gentoo())]);
    assert_eq!(r.set_default("b".to_string(), true, true), Ok(()));
    let once = r.list(false, true);
    assert_eq!(r.set_default("b".to_string(), true, true), Ok(()));
    assert_eq!(r.list(false, true), once);
    assert_eq!(once, names(&["b", "a"]));
    assert_eq!(once.iter().filter(|n| n.as_str() == "b").count(), 1);
}

#[test]
fn set_default_of_a_missing_repository_fails() {
    let mut r = registry(&["a"], vec![("a", gentoo())]);
    assert_eq!(r.set_default("nope".to_string(), true, true), Err(RepoError::NoSuchRepo));
    assert_eq!(r.set_default("nope".to_string(), false, true), Err(RepoError::NoSuchRepo));
    assert_eq!(r.list(false, true), names(&["a"]));
}

#[test]
fn defaults_never_dangle() {
    let mut r = RepoConfig::default();
    assert!(consistent(&r));
    assert_eq!(r.add("a".to_string(), "gentoo"), Ok(()));
    assert_eq!(r.add("b".to_string(), "dummy"), Ok(()));
    assert_eq!(r.set_default("a".to_string(), true, true), Ok(()));
    assert_eq!(r.set_default("b".to_string(), true, false), Ok(()));
    assert!(consistent(&r));
    assert_eq!(r.list(false, true), names(&["a", "dummy", "b"]));
    assert_eq!(r.rename("dummy", "placeholder"), Ok(()));
    assert!(consistent(&r));
    assert_eq!(r.list(false, true), names(&["a", "placeholder", "b"]));
    assert_eq!(r.remove("a"), Ok(()));
    assert!(consistent(&r));
    assert_eq!(r.remove("b"), Ok(()));
    assert!(consistent(&r));
    assert_eq!(r.list(false, true), names(&["placeholder"]));
    assert_eq!(r.remove("placeholder"), Ok(()));
    assert!(consistent(&r));
    assert_eq!(r.list(false, true), names(&[]));
    assert_eq!(r.list(true, false), names(&[]));
}

#[test]
fn string_or_seq_reads_one_name_or_many() {
    assert_eq!(string_or_seq(&ConfigValue::String("a".to_string())), Ok(names(&["a"])));
    let list = ConfigValue::Array(vec![ConfigValue::String("a".to_string()), ConfigValue::String("b".to_string())]);
    assert_eq!(string_or_seq(&list), Ok(names(&["a", "b"])));
    assert_eq!(string_or_seq(&ConfigValue::Array(vec![])), Ok(names(&[])));
    let mixed = ConfigValue::Array(vec![ConfigValue::String("a".to_string()), ConfigValue::Integer(1)]);
    assert_eq!(string_or_seq(&mixed), Err(ConfigError::SchemaMismatch));
    assert_eq!(string_or_seq(&ConfigValue::Integer(1)), Err(ConfigError::SchemaMismatch));
    assert_eq!(string_or_seq(&ConfigValue::new_table()), Err(ConfigError::SchemaMismatch));
}

#[test]
fn registry_is_read_from_its_section() {
    let text = "default = \"main\"\n\n[main]\ntype = \"gentoo\"\nlocation = \"/var/db/repos/gentoo\"\nsync-type = \"git\"\nsync-uri = \"https://example.org/gentoo.git\"\n\n[stub]\ntype = \"dummy\"\n";
    let r = RepoConfig::from_value(&parse(text).unwrap()).unwrap();
    assert_eq!(r.list(false, true), names(&["main"]));
    assert_eq!(r.list(true, false), names(&["main", "stub"]));
    assert_eq!(r.get("main"), Some(&gentoo()));
    assert_eq!(r.get("stub"), Some(&Repo::Dummy(DummyRepo)));
}

#[test]
fn registry_section_must_have_the_right_shape() {
    let bad = [
        "",
        "default = 1\n",
        "default = [1]\n",
        "default = []\nextra = 1\n",
        "default = []\n\n[r]\n",
        "default = []\n\n[r]\ntype = \"unknown\"\n",
        "default = []\n\n[r]\ntype = 1\n",
        "default = []\n\n[r]\ntype = \"gentoo\"\n",
        "default = []\n\n[r]\ntype = \"gentoo\"\nlocation = \"/x\"\nsync-type = \"ftp\"\nsync-uri = \"u\"\n",
        "default = []\n\n[r]\ntype = \"gentoo\"\nlocation = 1\nsync-type = \"git\"\nsync-uri = \"u\"\n",
        "[r]\ntype = \"dummy\"\n",
    ];
    for text in bad {
        assert_eq!(RepoConfig::from_value(&parse(text).unwrap()), Err(ConfigError::SchemaMismatch), "{}", text);
    }
    assert_eq!(RepoConfig::from_value(&ConfigValue::Integer(1)), Err(ConfigError::SchemaMismatch));
}

#[test]
fn registry_is_written_and_read_back() {
    let r = registry(&["b", "a"], vec![("a", gentoo()), ("b", Repo::Dummy(DummyRepo))]);
    let v = r.to_value().unwrap();
    assert_eq!(v.get("default"), Some(&ConfigValue::Array(vec![
        ConfigValue::String("b".to_string()),
        ConfigValue::String("a".to_string()),
    ])));
    assert_eq!(
        v.get("b"),
        Some(&ConfigValue::Table(vec![("type".to_string(), ConfigValue::String("dummy".to_string()))]))
    );
    assert_eq!(
        v.get("a"),
        Some(&ConfigValue::Table(vec![
            ("type".to_string(), ConfigValue::String("gentoo".to_string())),
            ("location".to_string(), ConfigValue::String("/var/db/repos/gentoo".to_string())),
            ("sync-type".to_string(), ConfigValue::String("git".to_string())),
            ("sync-uri".to_string(), ConfigValue::String("https://example.org/gentoo.git".to_string())),
        ]))
    );
    assert_eq!(RepoConfig::from_value(&v), Ok(r));
}

#[test]
fn a_repository_named_default_cannot_be_written() {
    let r = registry(&[], vec![("default", Repo::Dummy(DummyRepo))]);
    assert_eq!(r.to_value(), Err(ConfigError::Unrepresentable));
}

#[test]
fn sync_types_have_names() {
    let all = [
        (SyncType::Cvs, "cvs"),
        (SyncType::Git, "git"),
        (SyncType::Rsync, "rsync"),
        (SyncType::Svn, "svn"),
        (SyncType::WebRsync, "webrsync"),
    ];
    for (t, name) in all {
        assert_eq!(t.name(), name);
        assert_eq!(SyncType::from_name(name), Some(t));
    }
    assert_eq!(SyncType::from_name("web-rsync"), None);
    assert_eq!(SyncType::from_name(""), None);
}

#[test]
fn strings_are_ordered_like_the_standard_library_orders_them() {
    let samples = ["", "a", "ab", "abc", "b", "B", "é", "z", "aa", "a-b", "a_b", "日本"];
    for a in samples {
        for b in samples {
            assert_eq!(str_lt(a, b), a < b, "{:?} {:?}", a, b);
            assert_eq!(str_eq(a, b), a == b, "{:?} {:?}", a, b);
        }
    }
}

#[test]
fn sort_names_sorts() {
    assert_eq!(sort_names(&names(&["c", "a", "b"])), names(&["a", "b", "c"]));
    assert_eq!(sort_names(&names(&["b", "ab", "a", ""])), names(&["", "a", "ab", "b"]));
    assert_eq!(sort_names(&names(&[])), names(&[]));
    assert_eq!(sort_names(&names(&["only"])), names(&["only"]));
}

#[test]
fn remove_all_takes_every_occurrence() {
    let list = names(&["a", "b", "a", "c", "a"]);
    assert_eq!(remove_all(&list, &"a".to_string()), names(&["b", "c"]));
    assert_eq!(remove_all(&list, &"x".to_string()), list);
    assert_eq!(remove_all(&names(&[]), &"a".to_string()), names(&[]));
}

#[test]
fn command_line_words() {
    assert_eq!(parse_enabled("true"), Some(true));
    assert_eq!(parse_enabled("false"), Some(false));
    assert_eq!(parse_enabled("yes"), None);
    assert_eq!(parse_enabled(""), None);
    assert_eq!(parse_precedence("first"), Some(true));
    assert_eq!(parse_precedence("last"), Some(false));
    assert_eq!(parse_precedence("middle"), None);
}
