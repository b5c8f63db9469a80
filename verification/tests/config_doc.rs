use storm::codec::parse;
use storm::config::{reset, show, CliConfig, Config, ConfigError};
use storm::repo::{DummyRepo, GentooRepo, Repo, RepoConfig, SyncType};
use storm::sandbox::SandboxConfig;
use storm::value::ConfigValue;

fn names(list: &[&str]) -> Vec<String> {
    list.iter().map(|s| s.to_string()).collect()
}

#[test]
fn default_config() {
    let c = Config::default();
    assert_eq!(c.cli, CliConfig { prompt: false });
    assert_eq!(c.sandbox, SandboxConfig::Chroot);
    assert_eq!(c.repo, RepoConfig::default());
    assert_eq!(SandboxConfig::default(), SandboxConfig::Chroot);
    assert_eq!(CliConfig::default(), CliConfig { prompt: false });
}

#[test]
fn a_missing_file_loads_the_default() {
    assert_eq!(Config::load(None), Ok(Config::default()));
    let raw = Config::load_raw(None).unwrap();
    assert_eq!(Config::from_value(&raw), Ok(Config::default()));
    assert_eq!(storm::config::get(&raw, "repo.default.0"), Ok(&ConfigValue::String("dummy".to_string())));
    assert_eq!(storm::config::get(&raw, "sandbox.type"), Ok(&ConfigValue::String("chroot".to_string())));
    assert_eq!(storm::config::get(&raw, "cli.prompt"), Ok(&ConfigValue::Boolean(false)));
    assert_eq!(storm::config::get(&raw, "repo.dummy.type"), Ok(&ConfigValue::String("dummy".to_string())));
}

#[test]
fn an_empty_file_loads_the_default() {
    assert_eq!(Config::load(Some("")), Ok(Config::default()));
}

#[test]
fn load_reads_every_section() {
    let text = "[cli]\nprompt = true\n\n[sandbox]\ntype = \"firecracker\"\n\n[repo]\ndefault = [\"g\"]\n\n[repo.g]\ntype = \"gentoo\"\nlocation = \"/g\"\nsync-type = \"svn\"\nsync-uri = \"svn://g\"\n";
    let c = Config::load(Some(text)).unwrap();
    assert_eq!(c.cli, CliConfig { prompt: true });
    assert_eq!(c.sandbox, SandboxConfig::Firecracker);
    assert_eq!(c.repo.list(false, true), names(&["g"]));
    assert_eq!(
        c.repo.get("g"),
        Some(&Repo::Gentoo(GentooRepo {
            location: "/g".to_string(),
            sync_type: SyncType::Svn,
            sync_uri: "svn://g".to_string(),
        }))
    );
}

#[test]
fn load_accepts_one_default_as_a_string() {
    let c = Config::load(Some("[repo]\ndefault = \"d\"\n\n[repo.d]\ntype = \"dummy\"\n")).unwrap();
    assert_eq!(c.repo.list(false, true), names(&["d"]));
    assert_eq!(c.repo.get("d"), Some(&Repo::Dummy(DummyRepo)));
}

#[test]
fn load_passes_over_unknown_sections() {
    let c = Config::load(Some("[future]\nknob = 1\n\n[cli]\nprompt = true\nextra = 2\n")).unwrap();
    assert_eq!(c.cli, CliConfig { prompt: true });
    assert_eq!(c.sandbox, SandboxConfig::Chroot);
    assert_eq!(c.repo, RepoConfig::default());
}

#[test]
fn load_reports_malformed_text() {
    assert_eq!(Config::load(Some("cli = ")), Err(ConfigError::MalformedDocument));
    assert_eq!(Config::load_raw(Some("[cli")), Err(ConfigError::MalformedDocument));
}

#[test]
fn load_reports_a_schema_mismatch() {
    let bad = [
        "cli = 1\n",
        "[cli]\n",
        "[cli]\nprompt = \"yes\"\n",
        "sandbox = \"chroot\"\n",
        "[sandbox]\n",
        "[sandbox]\ntype = \"docker\"\n",
        "[sandbox]\ntype = 1\n",
        "repo = []\n",
        "[repo]\n",
        "[repo]\ndefault = [\"a\"]\n\n[repo.a]\ntype = \"nope\"\n",
    ];
    for text in bad {
        assert_eq!(Config::load(Some(text)), Err(ConfigError::SchemaMismatch), "{}", text);
    }
    assert_eq!(Config::from_value(&ConfigValue::Integer(1)), Err(ConfigError::SchemaMismatch));
}

#[test]
fn sandbox_names() {
    for (s, name) in [
        (SandboxConfig::Chroot, "chroot"),
        (SandboxConfig::Firecracker, "firecracker"),
        (SandboxConfig::CrosVM, "crosvm"),
    ] {
        let v = s.to_value();
        assert_eq!(v, ConfigValue::Table(vec![("type".to_string(), ConfigValue::String(name.to_string()))]));
        assert_eq!(SandboxConfig::from_value(&v), Ok(s));
    }
}

#[test]
fn cli_section() {
    let v = CliConfig { prompt: true }.to_value();
    assert_eq!(v, ConfigValue::Table(vec![("prompt".to_string(), ConfigValue::Boolean(true))]));
    assert_eq!(CliConfig::from_value(&v), Ok(CliConfig { prompt: true }));
    assert_eq!(CliConfig::from_value(&ConfigValue::Boolean(true)), Err(ConfigError::SchemaMismatch));
}

#[test]
fn save_then_load_gives_the_configuration_back() {
    let mut c = Config::default();
    c.cli.prompt = true;
    c.sandbox = SandboxConfig::CrosVM;
    assert_eq!(c.repo.add("g".to_string(), "gentoo"), Ok(()));
    assert_eq!(c.repo.set_default("g".to_string(), true, true), Ok(()));
    let text = c.save().unwrap();
    assert_eq!(Config::load(Some(&text)), Ok(c));
}

#[test]
fn save_writes_the_sections() {
    let text = Config::default().save().unwrap();
    let doc = parse(&text).unwrap();
    assert_eq!(Config::from_value(&doc), Ok(Config::default()));
    assert_eq!(Ok(text), reset());
}

#[test]
fn save_refuses_a_repository_named_default() {
    let mut c = Config::default();
    assert_eq!(c.repo.add("default".to_string(), "dummy"), Ok(()));
    assert_eq!(c.save(), Err(ConfigError::Unrepresentable));
    assert_eq!(c.to_value(), Err(ConfigError::Unrepresentable));
}

#[test]
fn show_validates_unless_raw() {
    let doc = parse("[future]\nknob = 1\n\n[cli]\nprompt = true\n").unwrap();
    let raw = show(&doc, true).unwrap();
    assert_eq!(raw, "[cli]\nprompt = true\n\n[future]\nknob = 1\n");
    let validated = show(&doc, false).unwrap();
    let mut want = Config::default();
    want.cli.prompt = true;
    assert_eq!(Ok(validated), want.save());
    let bad = parse("[cli]\nprompt = 1\n").unwrap();
    assert_eq!(show(&bad, false), Err(ConfigError::SchemaMismatch));
    assert!(show(&bad, true).is_ok());
}

#[test]
fn get_path_prefers_the_given_path() {
    let given = Some("/etc/storm");
    let default = Some("/home/u/.local/share/storm/config");
    let none: Option<&str> = None;
    assert_eq!(Config::get_path(&given, &default), Ok(&"/etc/storm"));
    assert_eq!(Config::get_path(&none, &default), Ok(&"/home/u/.local/share/storm/config"));
    assert_eq!(Config::get_path(&given, &none), Ok(&"/etc/storm"));
    assert_eq!(Config::get_path(&none, &none), Err(ConfigError::NoConfigFile));
}

#[test]
fn get_path_takes_paths_of_any_kind() {
    let given = Some(std::path::PathBuf::from("/etc/storm"));
    let none: Option<std::path::PathBuf> = None;
    assert_eq!(Config::get_path(&given, &none), Ok(&std::path::PathBuf::from("/etc/storm")));
    assert_eq!(Config::get_path(&none, &none), Err(ConfigError::NoConfigFile));
}

#[test]
fn errors_have_messages() {
    assert_eq!(
        ConfigError::NoConfigFile.message(),
        "No config file was defined; specify --file or at least set $HOME"
    );
    assert_eq!(ConfigError::NoSuchKey.message(), "No such option exists in the configuration file");
    assert_eq!(storm::repo::RepoError::NoSuchRepo.message(), "no repo exists with the specified name");
    assert!(!storm::repo::RepoError::NoSuchBackendKind.message().is_empty());
    for e in [
        ConfigError::MalformedDocument,
        ConfigError::SchemaMismatch,
        ConfigError::TypeMismatch,
        ConfigError::Unrepresentable,
    ] {
        assert!(!e.message().is_empty());
    }
}
