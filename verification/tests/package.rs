use storm::package::Package;
use storm::text::{find_char, trim_end};

#[test]
fn parse_splits_at_the_first_colon() {
    let p = Package::parse("gentoo:sys-apps/portage");
    assert_eq!(p.repo(), Some("gentoo"));
    assert_eq!(p.name(), "sys-apps/portage");
    let p = Package::parse("a:b:c");
    assert_eq!(p.repo(), Some("a"));
    assert_eq!(p.name(), "b:c");
}

#[test]
fn parse_without_a_colon_has_no_repo() {
    let p = Package::parse("portage");
    assert_eq!(p.repo(), None);
    assert_eq!(p.name(), "portage");
    let p = Package::parse("");
    assert_eq!(p.repo(), None);
    assert_eq!(p.name(), "");
}

#[test]
fn underscore_stands_for_no_repo() {
    let p = Package::parse("_:name:with:colons");
    assert_eq!(p.repo(), None);
    assert_eq!(p.name(), "name:with:colons");
    let p = Package::parse("__:name");
    assert_eq!(p.repo(), Some("__"));
    assert_eq!(p.name(), "name");
}

#[test]
fn parse_keeps_empty_parts() {
    let p = Package::parse(":name");
    assert_eq!(p.repo(), Some(""));
    assert_eq!(p.name(), "name");
    let p = Package::parse("repo:");
    assert_eq!(p.repo(), Some("repo"));
    assert_eq!(p.name(), "");
}

#[test]
fn parse_counts_characters_not_bytes() {
    let p = Package::parse("dépôt:paquet-é");
    assert_eq!(p.repo(), Some("dépôt"));
    assert_eq!(p.name(), "paquet-é");
}

#[test]
fn constructors() {
    let p = Package::new("name");
    assert_eq!(p.repo(), None);
    assert_eq!(p.name(), "name");
    let p = Package::with_repo("repo", "name");
    assert_eq!(p.repo(), Some("repo"));
    assert_eq!(p.name(), "name");
}

#[test]
fn to_text_writes_the_package_out() {
    assert_eq!(Package::with_repo("repo", "name").to_text(), "repo:name");
    assert_eq!(Package::new("name").to_text(), "name");
    assert_eq!(Package::new("na:me").to_text(), "<no repo>:na:me");
    assert_eq!(Package::parse("repo:name").to_text(), "repo:name");
    assert_eq!(Package::parse("_:a:b").to_text(), "<no repo>:a:b");
    assert_eq!(Package::parse("_:name").to_text(), "name");
}

#[test]
fn find_char_finds_the_first() {
    assert_eq!(find_char("a:b:c", ':'), Some(1));
    assert_eq!(find_char("abc", ':'), None);
    assert_eq!(find_char("", ':'), None);
    assert_eq!(find_char(":", ':'), Some(0));
    assert_eq!(find_char("é:", ':'), Some(1));
}

#[test]
fn trim_end_cuts_the_run_at_the_end() {
    assert_eq!(trim_end("abc\n\n", '\n'), "abc");
    assert_eq!(trim_end("abc", '\n'), "abc");
    assert_eq!(trim_end("\n\n", '\n'), "");
    assert_eq!(trim_end("a\nb\n", '\n'), "a\nb");
    assert_eq!(trim_end("", '\n'), "");
}
