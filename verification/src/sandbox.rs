//! The choice of sandbox, and how it stands in the configuration document.
use vstd::prelude::*;
use crate::config::ConfigError;
use crate::text::str_eq;
use crate::value::{field, ConfigValue, ValueView};

verus! {

/// The isolation mechanism that package builds run under.
#[derive(Clone, Copy, Debug, PartialEq, Eq, Structural)]
pub enum SandboxConfig {
    Chroot,
    Firecracker,
    CrosVM,
}

impl Default for SandboxConfig {
    fn default() -> (r: Self)
        ensures
            r == SandboxConfig::Chroot,
    {
        SandboxConfig::Chroot
    }
}

/// The name under which a sandbox stands in the document.
pub open spec fn sandbox_name(s: SandboxConfig) -> Seq<char> {
    match s {
        SandboxConfig::Chroot => "chroot"@,
        SandboxConfig::Firecracker => "firecracker"@,
        SandboxConfig::CrosVM => "crosvm"@,
    }
}

/// The sandbox of the given name.
pub open spec fn sandbox_named(name: Seq<char>) -> Option<SandboxConfig> {
    if name == "chroot"@ {
        Some(SandboxConfig::Chroot)
    } else if name == "firecracker"@ {
        Some(SandboxConfig::Firecracker)
    } else if name == "crosvm"@ {
        Some(SandboxConfig::CrosVM)
    } else {
        None
    }
}

/// The section that a sandbox is written as: a table whose `type` is its name.
pub open spec fn sandbox_value(s: SandboxConfig) -> ValueView {
    ValueView::Table(Map::empty().insert("type"@, ValueView::String(sandbox_name(s))))
}

/// The sandbox that a section names: the one whose name stands under `type`.
pub open spec fn sandbox_from(v: ValueView) -> Option<SandboxConfig> {
    match field(v, "type"@) {
        Some(ValueView::String(name)) => sandbox_named(name),
        _ => None,
    }
}

/// A sandbox is read back from the section it is written as.
pub proof fn lemma_sandbox_round_trip(s: SandboxConfig)
    ensures
        sandbox_from(sandbox_value(s)) == Some(s),
{
    reveal_strlit("chroot");
    reveal_strlit("firecracker");
    reveal_strlit("crosvm");
    assert("chroot"@.len() != "firecracker"@.len());
    assert("chroot"@[1] != "crosvm"@[1]);
    assert("firecracker"@.len() != "crosvm"@.len());
}

impl SandboxConfig {
    /// The section that this sandbox is written as.
    pub fn to_value(&self) -> (v: ConfigValue)
        ensures
            v@ == sandbox_value(*self),
            v.wf(),
    {
        let name = match self {
            SandboxConfig::Chroot => "chroot",
            SandboxConfig::Firecracker => "firecracker",
            SandboxConfig::CrosVM => "crosvm",
        };
        let mut table = ConfigValue::new_table();
        table.insert("type".to_owned(), ConfigValue::String(name.to_owned()));
        table
    }

    /// The sandbox that the section names.
    pub fn from_value(v: &ConfigValue) -> (r: Result<Self, ConfigError>)
        requires
            v.wf(),
        ensures
            match r {
                Ok(s) => sandbox_from(v@) == Some(s),
                Err(e) => e == ConfigError::SchemaMismatch && sandbox_from(v@) is None,
            },
    {
        let name = match v.get("type") {
            Some(ConfigValue::String(name)) => name,
            _ => {
                return Err(ConfigError::SchemaMismatch);
            },
        };
        if str_eq(name.as_str(), "chroot") {
            Ok(SandboxConfig::Chroot)
        } else if str_eq(name.as_str(), "firecracker") {
            Ok(SandboxConfig::Firecracker)
        } else if str_eq(name.as_str(), "crosvm") {
            Ok(SandboxConfig::CrosVM)
        } else {
            Err(ConfigError::SchemaMismatch)
        }
    }
}

} // verus!
