//! The Gentoo backend: a tree of ebuilds at a location, synced from a mirror.
use vstd::prelude::*;
use crate::config::ConfigError;
use crate::text::str_eq;
use crate::value::{field, ConfigValue, ValueView};

verus! {

/// How a repository is brought up to date.
#[derive(Clone, Copy, Debug, PartialEq, Eq, Structural)]
pub enum SyncType {
    Cvs,
    Git,
    Rsync,
    Svn,
    WebRsync,
}

impl Default for SyncType {
    fn default() -> (r: Self)
        ensures
            r == SyncType::Rsync,
    {
        SyncType::Rsync
    }
}

/// A Gentoo repository: where it lies on disk, and how and from where it is
/// synced.
#[derive(Clone, Debug, PartialEq, Eq)]
pub struct GentooRepo {
    pub location: String,
    pub sync_type: SyncType,
    pub sync_uri: String,
}

/// The model of a [`GentooRepo`].
pub ghost struct GentooRepoView {
    pub location: Seq<char>,
    pub sync_type: SyncType,
    pub sync_uri: Seq<char>,
}

impl View for GentooRepo {
    type V = GentooRepoView;

    open spec fn view(&self) -> GentooRepoView {
        GentooRepoView {
            location: self.location@,
            sync_type: self.sync_type,
            sync_uri: self.sync_uri@,
        }
    }
}

impl Default for GentooRepo {
    fn default() -> (r: Self)
        ensures
            r@ == (GentooRepoView {
                location: Seq::empty(),
                sync_type: SyncType::Rsync,
                sync_uri: Seq::empty(),
            }),
    {
        GentooRepo { location: String::new(), sync_type: SyncType::Rsync, sync_uri: String::new() }
    }
}

/// The name under which a sync type stands in the document.
pub open spec fn sync_type_name(t: SyncType) -> Seq<char> {
    match t {
        SyncType::Cvs => "cvs"@,
        SyncType::Git => "git"@,
        SyncType::Rsync => "rsync"@,
        SyncType::Svn => "svn"@,
        SyncType::WebRsync => "webrsync"@,
    }
}

/// The sync type of the given name.
pub open spec fn sync_type_named(name: Seq<char>) -> Option<SyncType> {
    if name == "cvs"@ {
        Some(SyncType::Cvs)
    } else if name == "git"@ {
        Some(SyncType::Git)
    } else if name == "rsync"@ {
        Some(SyncType::Rsync)
    } else if name == "svn"@ {
        Some(SyncType::Svn)
    } else if name == "webrsync"@ {
        Some(SyncType::WebRsync)
    } else {
        None
    }
}

/// A sync type is found again under its name.
pub proof fn lemma_sync_type_round_trip(t: SyncType)
    ensures
        sync_type_named(sync_type_name(t)) == Some(t),
{
    reveal_strlit("cvs");
    reveal_strlit("git");
    reveal_strlit("rsync");
    reveal_strlit("svn");
    reveal_strlit("webrsync");
    assert("cvs"@[0] != "git"@[0]);
    assert("cvs"@[0] != "svn"@[0]);
    assert("git"@[0] != "svn"@[0]);
    assert("rsync"@.len() == 5 && "webrsync"@.len() == 8 && "cvs"@.len() == 3);
}

/// The fields that a Gentoo repository is written as, put into the table `m`.
pub open spec fn gentoo_fields(m: Map<Seq<char>, ValueView>, g: GentooRepoView) -> Map<
    Seq<char>,
    ValueView,
> {
    m.insert("location"@, ValueView::String(g.location)).insert(
        "sync-type"@,
        ValueView::String(sync_type_name(g.sync_type)),
    ).insert("sync-uri"@, ValueView::String(g.sync_uri))
}

/// The Gentoo repository that the fields of a table describe: `location` and
/// `sync-uri` are strings, `sync-type` is the name of a sync type.
pub open spec fn gentoo_from(v: ValueView) -> Option<GentooRepoView> {
    match (field(v, "location"@), field(v, "sync-type"@), field(v, "sync-uri"@)) {
        (
            Some(ValueView::String(location)),
            Some(ValueView::String(kind)),
            Some(ValueView::String(sync_uri)),
        ) => match sync_type_named(kind) {
            Some(sync_type) => Some(GentooRepoView { location, sync_type, sync_uri }),
            None => None,
        },
        _ => None,
    }
}

/// The keys of the fields differ from each other and from `type`.
pub proof fn lemma_gentoo_keys()
    ensures
        "location"@ != "sync-type"@,
        "location"@ != "sync-uri"@,
        "sync-type"@ != "sync-uri"@,
        "type"@ != "location"@,
        "type"@ != "sync-type"@,
        "type"@ != "sync-uri"@,
{
    reveal_strlit("location");
    reveal_strlit("sync-type");
    reveal_strlit("sync-uri");
    reveal_strlit("type");
    assert("location"@[0] != "sync-type"@[0]);
    assert("location"@[0] != "sync-uri"@[0]);
    assert("sync-type"@.len() != "sync-uri"@.len());
    assert("type"@.len() == 4 && "location"@.len() == 8 && "sync-type"@.len() == 9
        && "sync-uri"@.len() == 8);
}

impl SyncType {
    /// The name under which this sync type stands in the document.
    pub fn name(&self) -> (r: &'static str)
        ensures
            r@ == sync_type_name(*self),
    {
        match self {
            SyncType::Cvs => "cvs",
            SyncType::Git => "git",
            SyncType::Rsync => "rsync",
            SyncType::Svn => "svn",
            SyncType::WebRsync => "webrsync",
        }
    }

    /// The sync type of the given name.
    pub fn from_name(name: &str) -> (r: Option<SyncType>)
        ensures
            r == sync_type_named(name@),
    {
        if str_eq(name, "cvs") {
            Some(SyncType::Cvs)
        } else if str_eq(name, "git") {
            Some(SyncType::Git)
        } else if str_eq(name, "rsync") {
            Some(SyncType::Rsync)
        } else if str_eq(name, "svn") {
            Some(SyncType::Svn)
        } else if str_eq(name, "webrsync") {
            Some(SyncType::WebRsync)
        } else {
            None
        }
    }
}

impl GentooRepo {
    /// Puts the fields of this repository into the table `table`.
    pub fn write_fields(&self, table: &mut ConfigValue)
        requires
            old(table).wf(),
            old(table)@ is Table,
        ensures
            final(table).wf(),
            final(table)@ == ValueView::Table(gentoo_fields(old(table)@->Table_0, self@)),
    {
        table.insert("location".to_owned(), ConfigValue::String(self.location.clone()));
        table.insert("sync-type".to_owned(), ConfigValue::String(self.sync_type.name().to_owned()));
        table.insert("sync-uri".to_owned(), ConfigValue::String(self.sync_uri.clone()));
    }

    /// The repository that the fields of the table describe.
    pub fn from_value(v: &ConfigValue) -> (r: Result<GentooRepo, ConfigError>)
        requires
            v.wf(),
        ensures
            match r {
                Ok(g) => gentoo_from(v@) == Some(g@),
                Err(e) => e == ConfigError::SchemaMismatch && gentoo_from(v@) is None,
            },
    {
        let location = match v.get("location") {
            Some(ConfigValue::String(s)) => s,
            _ => {
                return Err(ConfigError::SchemaMismatch);
            },
        };
        let kind = match v.get("sync-type") {
            Some(ConfigValue::String(s)) => s,
            _ => {
                return Err(ConfigError::SchemaMismatch);
            },
        };
        let sync_uri = match v.get("sync-uri") {
            Some(ConfigValue::String(s)) => s,
            _ => {
                return Err(ConfigError::SchemaMismatch);
            },
        };
        match SyncType::from_name(kind.as_str()) {
            Some(sync_type) => Ok(
                GentooRepo { location: location.clone(), sync_type, sync_uri: sync_uri.clone() },
            ),
            None => Err(ConfigError::SchemaMismatch),
        }
    }
}

/// A Gentoo repository is read back from the fields it is written as.
pub proof fn lemma_gentoo_round_trip(m: Map<Seq<char>, ValueView>, g: GentooRepoView)
    ensures
        gentoo_from(ValueView::Table(gentoo_fields(m, g))) == Some(g),
{
    lemma_gentoo_keys();
    lemma_sync_type_round_trip(g.sync_type);
}

} // verus!
