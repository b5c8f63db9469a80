//! The configuration document: its sections, and reading and writing it.
use vstd::prelude::*;
use vstd::string::*;
use crate::codec::{parse, render, serialize, toml_parsed, toml_pretty_text, toml_text};
use crate::path::{assign, erase, find, lemma_placed_same, resolve, segments, written};
use crate::repo::{
    default_registry, lemma_registry_round_trip, registry_from, registry_value, RepoConfig,
    RepoConfigView,
};
use crate::sandbox::{lemma_sandbox_round_trip, sandbox_from, sandbox_value, SandboxConfig};
use crate::text::{split, trim_end, trimmed_end, views};
use crate::value::{field, ConfigValue, ValueView};

verus! {

/// What can go wrong when the configuration is read, looked into or written.
#[derive(Clone, Copy, Debug, PartialEq, Eq, Structural)]
pub enum ConfigError {
    /// No path was given and none could be derived.
    NoConfigFile,
    /// The text is not a TOML document.
    MalformedDocument,
    /// The document does not have the shape of a configuration.
    SchemaMismatch,
    /// The path leads to nothing.
    NoSuchKey,
    /// The value is not of the kind that was asked for.
    TypeMismatch,
    /// The document cannot be written as TOML.
    Unrepresentable,
}

/// What is told to the user for an error.
pub open spec fn config_message(e: ConfigError) -> Seq<char> {
    match e {
        ConfigError::NoConfigFile => {
            "No config file was defined; specify --file or at least set $HOME"@
        },
        ConfigError::MalformedDocument => "The configuration file is not a valid document"@,
        ConfigError::SchemaMismatch => {
            "The configuration file does not have the shape of a configuration"@
        },
        ConfigError::NoSuchKey => "No such option exists in the configuration file"@,
        ConfigError::TypeMismatch => "The option is not of the requested type"@,
        ConfigError::Unrepresentable => "The configuration cannot be written as a document"@,
    }
}

impl ConfigError {
    /// What to tell the user.
    pub fn message(&self) -> (r: &'static str)
        ensures
            r@ == config_message(*self),
    {
        match self {
            ConfigError::NoConfigFile => {
                "No config file was defined; specify --file or at least set $HOME"
            },
            ConfigError::MalformedDocument => "The configuration file is not a valid document",
            ConfigError::SchemaMismatch => {
                "The configuration file does not have the shape of a configuration"
            },
            ConfigError::NoSuchKey => "No such option exists in the configuration file",
            ConfigError::TypeMismatch => "The option is not of the requested type",
            ConfigError::Unrepresentable => "The configuration cannot be written as a document",
        }
    }
}

/// What the command line does on its own account.
#[derive(Clone, Copy, Debug, PartialEq, Eq, Structural)]
pub struct CliConfig {
    /// Whether to ask before acting.
    pub prompt: bool,
}

impl Default for CliConfig {
    fn default() -> (r: Self)
        ensures
            r == (CliConfig { prompt: false }),
    {
        CliConfig { prompt: false }
    }
}

/// The section that the command-line preferences are written as.
pub open spec fn cli_value(c: CliConfig) -> ValueView {
    ValueView::Table(Map::empty().insert("prompt"@, ValueView::Boolean(c.prompt)))
}

/// The command-line preferences that a section describes: a table with a
/// boolean under `prompt`.
pub open spec fn cli_from(v: ValueView) -> Option<CliConfig> {
    match field(v, "prompt"@) {
        Some(ValueView::Boolean(prompt)) => Some(CliConfig { prompt }),
        _ => None,
    }
}

impl CliConfig {
    /// The section that these preferences are written as.
    pub fn to_value(&self) -> (v: ConfigValue)
        ensures
            v@ == cli_value(*self),
            v.wf(),
    {
        let mut table = ConfigValue::new_table();
        table.insert("prompt".to_owned(), ConfigValue::Boolean(self.prompt));
        table
    }

    /// The preferences that the section describes.
    pub fn from_value(v: &ConfigValue) -> (r: Result<Self, ConfigError>)
        requires
            v.wf(),
        ensures
            match r {
                Ok(c) => cli_from(v@) == Some(c),
                Err(e) => e == ConfigError::SchemaMismatch && cli_from(v@) is None,
            },
    {
        match v.get("prompt") {
            Some(ConfigValue::Boolean(prompt)) => Ok(CliConfig { prompt: *prompt }),
            _ => Err(ConfigError::SchemaMismatch),
        }
    }
}

/// The whole configuration.
#[derive(Clone, Debug, PartialEq, Eq)]
pub struct Config {
    pub cli: CliConfig,
    pub sandbox: SandboxConfig,
    pub repo: RepoConfig,
}

/// The model of a [`Config`].
pub ghost struct ConfigView {
    pub cli: CliConfig,
    pub sandbox: SandboxConfig,
    pub repo: RepoConfigView,
}

impl View for Config {
    type V = ConfigView;

    open spec fn view(&self) -> ConfigView {
        ConfigView { cli: self.cli, sandbox: self.sandbox, repo: self.repo@ }
    }
}

/// The configuration that stands for a missing file.
pub open spec fn default_config() -> ConfigView {
    ConfigView {
        cli: CliConfig { prompt: false },
        sandbox: SandboxConfig::Chroot,
        repo: default_registry(),
    }
}

/// The document that a configuration is written as: one section each for the
/// command line, the sandbox and the registry.
pub open spec fn config_value(c: ConfigView) -> ValueView {
    ValueView::Table(
        Map::empty().insert("cli"@, cli_value(c.cli)).insert(
            "sandbox"@,
            sandbox_value(c.sandbox),
        ).insert("repo"@, registry_value(c.repo)),
    )
}

/// The configuration that a document describes. A section that is missing
/// has its default; one that is there must have the shape of its kind. Other
/// keys are passed over.
pub open spec fn config_from(v: ValueView) -> Option<ConfigView> {
    match v {
        ValueView::Table(m) => {
            let cli = if m.contains_key("cli"@) {
                cli_from(m["cli"@])
            } else {
                Some(CliConfig { prompt: false })
            };
            let sandbox = if m.contains_key("sandbox"@) {
                sandbox_from(m["sandbox"@])
            } else {
                Some(SandboxConfig::Chroot)
            };
            let repo = if m.contains_key("repo"@) {
                registry_from(m["repo"@])
            } else {
                Some(default_registry())
            };
            match (cli, sandbox, repo) {
                (Some(cli), Some(sandbox), Some(repo)) => Some(ConfigView { cli, sandbox, repo }),
                _ => None,
            }
        },
        _ => None,
    }
}

/// The names of the sections differ.
pub proof fn lemma_section_names()
    ensures
        "cli"@ != "sandbox"@,
        "cli"@ != "repo"@,
        "sandbox"@ != "repo"@,
        "dummy"@ != "default"@,
{
    reveal_strlit("cli");
    reveal_strlit("sandbox");
    reveal_strlit("repo");
    reveal_strlit("dummy");
    reveal_strlit("default");
    assert("cli"@.len() == 3 && "sandbox"@.len() == 7 && "repo"@.len() == 4);
    assert("dummy"@.len() == 5 && "default"@.len() == 7);
}

/// A configuration in which no repository is named `default` is read back
/// from the document it is written as.
pub proof fn lemma_config_round_trip(c: ConfigView)
    requires
        !c.repo.repos.contains_key("default"@),
    ensures
        config_from(config_value(c)) == Some(c),
{
    lemma_section_names();
    lemma_sandbox_round_trip(c.sandbox);
    lemma_registry_round_trip(c.repo);
}

impl Default for Config {
    fn default() -> (r: Self)
        ensures
            r.wf(),
            r@ == default_config(),
    {
        Config {
            cli: CliConfig::default(),
            sandbox: SandboxConfig::default(),
            repo: RepoConfig::default(),
        }
    }
}

impl Config {
    /// Well-formedness: that of the registry.
    pub open spec fn wf(&self) -> bool {
        self.repo.wf()
    }

    /// The document that this configuration is written as. One with a
    /// repository named `default` cannot be written.
    pub fn to_value(&self) -> (r: Result<ConfigValue, ConfigError>)
        requires
            self.wf(),
        ensures
            match r {
                Ok(v) => !self@.repo.repos.contains_key("default"@) && v@ == config_value(self@)
                    && v.wf(),
                Err(e) => e == ConfigError::Unrepresentable && self@.repo.repos.contains_key(
                    "default"@,
                ),
            },
    {
        let repo = match self.repo.to_value() {
            Ok(v) => v,
            Err(e) => {
                return Err(e);
            },
        };
        let mut table = ConfigValue::new_table();
        table.insert("cli".to_owned(), self.cli.to_value());
        table.insert("sandbox".to_owned(), self.sandbox.to_value());
        table.insert("repo".to_owned(), repo);
        Ok(table)
    }

    /// The configuration that the document describes.
    pub fn from_value(v: &ConfigValue) -> (r: Result<Config, ConfigError>)
        requires
            v.wf(),
        ensures
            match r {
                Ok(c) => config_from(v@) == Some(c@) && c.wf(),
                Err(e) => e == ConfigError::SchemaMismatch && config_from(v@) is None,
            },
    {
        if !matches!(v, ConfigValue::Table(_)) {
            return Err(ConfigError::SchemaMismatch);
        }
        let cli = match v.get("cli") {
            Some(section) => match CliConfig::from_value(section) {
                Ok(c) => c,
                Err(e) => {
                    return Err(e);
                },
            },
            None => CliConfig::default(),
        };
        let sandbox = match v.get("sandbox") {
            Some(section) => match SandboxConfig::from_value(section) {
                Ok(s) => s,
                Err(e) => {
                    return Err(e);
                },
            },
            None => SandboxConfig::default(),
        };
        let repo = match v.get("repo") {
            Some(section) => match RepoConfig::from_value(section) {
                Ok(r) => r,
                Err(e) => {
                    return Err(e);
                },
            },
            None => RepoConfig::default(),
        };
        Ok(Config { cli, sandbox, repo })
    }

    /// The path of the configuration file: the one given, else the default
    /// one.
    pub fn get_path<'a, P>(path: &'a Option<P>, default: &'a Option<P>) -> (r: Result<
        &'a P,
        ConfigError,
    >)
        ensures
            match (*path, *default) {
                (Some(p), _) => r matches Ok(got) && *got == p,
                (None, Some(d)) => r matches Ok(got) && *got == d,
                (None, None) => r matches Err(e) && e == ConfigError::NoConfigFile,
            },
    {
        match path {
            Some(p) => Ok(p),
            None => match default {
                Some(d) => Ok(d),
                None => Err(ConfigError::NoConfigFile),
            },
        }
    }

    /// The document of a configuration file, given what the file holds;
    /// `None` stands for a file that is not there, whose document is that of
    /// the default configuration.
    pub fn load_raw(contents: Option<&str>) -> (r: Result<ConfigValue, ConfigError>)
        ensures
            match contents {
                Some(text) => match r {
                    Ok(v) => toml_parsed(text@) == Some(v@) && v.wf(),
                    Err(e) => e == ConfigError::MalformedDocument && toml_parsed(text@) is None,
                },
                None => r matches Ok(v) && v@ == config_value(default_config()) && v.wf(),
            },
    {
        match contents {
            Some(text) => parse(text),
            None => {
                proof {
                    lemma_section_names();
                }
                Config::default().to_value()
            },
        }
    }

    /// The configuration of a configuration file, given what the file holds;
    /// `None` stands for a file that is not there, whose configuration is the
    /// default one.
    pub fn load(contents: Option<&str>) -> (r: Result<Config, ConfigError>)
        ensures
            r matches Ok(c) ==> c.wf(),
            match contents {
                Some(text) => loaded(toml_parsed(text@), r),
                None => r matches Ok(c) && c@ == default_config(),
            },
    {
        proof {
            lemma_section_names();
            lemma_config_round_trip(default_config());
        }
        match Config::load_raw(contents) {
            Ok(v) => Config::from_value(&v),
            Err(e) => Err(e),
        }
    }

    /// The text to write to the configuration file.
    pub fn save(&self) -> (r: Result<String, ConfigError>)
        requires
            self.wf(),
        ensures
            match r {
                Ok(text) => !self@.repo.repos.contains_key("default"@) && toml_pretty_text(
                    config_value(self@),
                ) == Some(text@),
                Err(e) => e == ConfigError::Unrepresentable && (self@.repo.repos.contains_key(
                    "default"@,
                ) || toml_pretty_text(config_value(self@)) is None),
            },
    {
        match self.to_value() {
            Ok(v) => Config::save_raw(&v),
            Err(e) => Err(e),
        }
    }

    /// The text to write to the configuration file for a document.
    pub fn save_raw(doc: &ConfigValue) -> (r: Result<String, ConfigError>)
        requires
            doc.wf(),
        ensures
            match r {
                Ok(text) => toml_pretty_text(doc@) == Some(text@),
                Err(e) => e == ConfigError::Unrepresentable && toml_pretty_text(doc@) is None,
            },
    {
        serialize(doc)
    }
}

/// What loading makes of a parsed text: the configuration that the document
/// describes; `MalformedDocument` where the text is no document, and
/// `SchemaMismatch` where the document describes no configuration.
pub open spec fn loaded(parsed: Option<ValueView>, r: Result<Config, ConfigError>) -> bool {
    match parsed {
        Some(tree) => match config_from(tree) {
            Some(c) => r matches Ok(got) && got@ == c,
            None => r == Err::<Config, ConfigError>(ConfigError::SchemaMismatch),
        },
        None => r == Err::<Config, ConfigError>(ConfigError::MalformedDocument),
    }
}

/// The value that a literal stands for, given what the text `x=` and the
/// literal reads as: what stands under `x` there, else the literal itself as
/// a string.
pub open spec fn literal_of(parsed: Option<ValueView>, raw: Seq<char>) -> ValueView {
    match parsed {
        Some(tree) => match field(tree, "x"@) {
            Some(v) => v,
            None => ValueView::String(raw),
        },
        None => ValueView::String(raw),
    }
}

/// The value that a literal on the command line stands for.
pub open spec fn literal(raw: Seq<char>) -> ValueView {
    literal_of(toml_parsed("x="@ + raw), raw)
}

/// The value that a literal stands for, given the outcome of reading the
/// text `x=` and the literal as a document.
pub fn literal_from(parsed: Result<ConfigValue, ConfigError>, raw: &str) -> (v: ConfigValue)
    requires
        parsed matches Ok(doc) ==> doc.wf(),
    ensures
        v.wf(),
        v@ == literal_of(
            match parsed {
                Ok(doc) => Some(doc@),
                Err(_) => None,
            },
            raw@,
        ),
{
    match parsed {
        Ok(doc) => {
            let mut doc = doc;
            match doc.remove("x") {
                Some(v) => v,
                None => ConfigValue::String(raw.to_owned()),
            }
        },
        Err(_) => ConfigValue::String(raw.to_owned()),
    }
}

/// Reads a literal from the command line: as TOML where it is TOML, else as
/// a string.
pub fn parse_literal(raw: &str) -> (v: ConfigValue)
    ensures
        v.wf(),
        v@ == literal(raw@),
{
    let text = "x=".to_owned().concat(raw);
    literal_from(parse(text.as_str()), raw)
}

/// The value of the option `key`.
pub fn get<'a>(doc: &'a ConfigValue, key: &str) -> (r: Result<&'a ConfigValue, ConfigError>)
    requires
        doc.wf(),
    ensures
        match r {
            Ok(v) => resolve(doc@, segments(key@), false) == Some(v@) && v.wf(),
            Err(e) => e == ConfigError::NoSuchKey && resolve(doc@, segments(key@), false) is None,
        },
{
    let segs = split(key, '.');
    find(doc, &segs)
}

/// How the value of an option is shown: a string as it is, anything else as
/// TOML without the line ends that close it.
pub open spec fn shown_as(v: ValueView) -> Option<Seq<char>> {
    match v {
        ValueView::String(s) => Some(s),
        _ => match toml_text(v) {
            Some(text) => Some(trimmed_end(text, '\n')),
            None => None,
        },
    }
}

/// The text that shows the value of an option.
pub fn shown(v: &ConfigValue) -> (r: Result<String, ConfigError>)
    requires
        v.wf(),
    ensures
        match r {
            Ok(text) => shown_as(v@) == Some(text@),
            Err(e) => e == ConfigError::Unrepresentable && shown_as(v@) is None,
        },
{
    match v {
        ConfigValue::String(s) => Ok(s.clone()),
        _ => match render(v) {
            Ok(text) => Ok(trim_end(text.as_str(), '\n').to_owned()),
            Err(e) => Err(e),
        },
    }
}

/// Sets the option `key` to what the literal `raw_value` stands for. Tables
/// that are missing on the way to the option are made.
pub fn set(doc: &mut ConfigValue, key: &str, raw_value: &str) -> (r: Result<(), ConfigError>)
    requires
        old(doc).wf(),
    ensures
        final(doc).wf(),
        written(
            old(doc)@,
            assign(old(doc)@, segments(key@), literal(raw_value@)),
            r,
            final(doc)@,
        ),
{
    let value = parse_literal(raw_value);
    match crate::path::find_key(doc, key, true) {
        Ok(slot) => {
            *slot = value;
            Ok(())
        },
        Err(e) => Err(e),
    }
}

/// Takes the option `key` out of its table.
pub fn unset(doc: &mut ConfigValue, key: &str) -> (r: Result<(), ConfigError>)
    requires
        old(doc).wf(),
    ensures
        final(doc).wf(),
        written(old(doc)@, erase(old(doc)@, segments(key@)), r, final(doc)@),
{
    let mut segs = split(key, '.');
    let ghost all = views(segs@);
    let name = segs.pop().unwrap();
    proof {
        assert(views(segs@) =~= all.drop_last());
        assert(views(segs@).skip(0) =~= views(segs@));
        if resolve(doc@, views(segs@), false) is Some {
            lemma_placed_same(doc@, views(segs@));
        }
    }
    match crate::path::slot_at(doc, &segs, 0, false) {
        Ok(parent) => match parent.remove(name.as_str()) {
            Some(_) => Ok(()),
            None => Err(ConfigError::NoSuchKey),
        },
        Err(e) => Err(e),
    }
}

/// What `show` answers for a document: the text of the document as it is,
/// or of the configuration that it describes.
pub open spec fn show_answers(doc: ValueView, raw: bool, r: Result<String, ConfigError>) -> bool {
    if raw {
        match r {
            Ok(text) => toml_pretty_text(doc) == Some(text@),
            Err(e) => e == ConfigError::Unrepresentable && toml_pretty_text(doc) is None,
        }
    } else {
        match config_from(doc) {
            Some(c) => match r {
                Ok(text) => toml_pretty_text(config_value(c)) == Some(text@),
                Err(e) => e == ConfigError::Unrepresentable && toml_pretty_text(config_value(c))
                    is None,
            },
            None => r == Err::<String, ConfigError>(ConfigError::SchemaMismatch),
        }
    }
}

/// The text of the whole configuration: of the document as it stands if
/// `raw`, else of the configuration that the document describes.
pub fn show(doc: &ConfigValue, raw: bool) -> (r: Result<String, ConfigError>)
    requires
        doc.wf(),
    ensures
        show_answers(doc@, raw, r),
{
    if raw {
        Config::save_raw(doc)
    } else {
        match Config::from_value(doc) {
            Ok(config) => {
                proof {
                    // What was read holds no repository named `default`.
                    lemma_section_names();
                    let m = doc@->Table_0;
                    if m.contains_key("repo"@) {
                        assert(!registry_from(m["repo"@]).unwrap().repos.contains_key("default"@));
                    }
                }
                config.save()
            },
            Err(e) => Err(e),
        }
    }
}

/// The text of the default configuration.
pub fn reset() -> (r: Result<String, ConfigError>)
    ensures
        match r {
            Ok(text) => toml_pretty_text(config_value(default_config())) == Some(text@),
            Err(e) => e == ConfigError::Unrepresentable && toml_pretty_text(
                config_value(default_config()),
            ) is None,
        },
{
    proof {
        lemma_section_names();
    }
    Config::default().save()
}

} // verus!
