//! The registry of package repositories: named backends, and the ordered list
//! of those that are consulted by default.
use vstd::prelude::*;
use crate::text::{
    ascending, lemma_lex_irreflexive, lemma_without_absent, lemma_without_contains, lex_lt,
    remove_all, sort_names, str_eq, views, without,
};
use crate::config::ConfigError;
use crate::value::{
    element_views, entry_views, field, has_key, keys_distinct, lemma_push_distinct,
    lemma_table_of_dom, lemma_table_of_lookup, lemma_table_of_rekey, lemma_table_of_remove,
    lemma_table_of_update, table_of, ConfigValue, ValueView,
};

pub mod dummy;
pub mod gentoo;

pub use dummy::DummyRepo;
pub use gentoo::{GentooRepo, GentooRepoView, SyncType};
use gentoo::{gentoo_fields, gentoo_from, lemma_gentoo_keys, lemma_gentoo_round_trip};

verus! {

/// What a registry operation can fail with.
#[derive(Clone, Copy, Debug, PartialEq, Eq, Structural)]
pub enum RepoError {
    /// No repository has the given name.
    NoSuchRepo,
    /// No backend is of the given kind.
    NoSuchBackendKind,
}

/// What is told to the user for an error.
pub open spec fn repo_message(e: RepoError) -> Seq<char> {
    match e {
        RepoError::NoSuchRepo => "no repo exists with the specified name"@,
        RepoError::NoSuchBackendKind => "no repo backend exists of the specified kind"@,
    }
}

impl RepoError {
    /// What to tell the user.
    pub fn message(&self) -> (r: &'static str)
        ensures
            r@ == repo_message(*self),
    {
        match self {
            RepoError::NoSuchRepo => "no repo exists with the specified name",
            RepoError::NoSuchBackendKind => "no repo backend exists of the specified kind",
        }
    }
}

/// The answer that a word on the command line gives to "make it a default?".
pub open spec fn enabled_of(word: Seq<char>) -> Option<bool> {
    if word == "true"@ {
        Some(true)
    } else if word == "false"@ {
        Some(false)
    } else {
        None
    }
}

/// The answer that a word on the command line gives to "first among the
/// defaults?".
pub open spec fn first_of(word: Seq<char>) -> Option<bool> {
    if word == "first"@ {
        Some(true)
    } else if word == "last"@ {
        Some(false)
    } else {
        None
    }
}

/// Reads `true` or `false`.
pub fn parse_enabled(word: &str) -> (r: Option<bool>)
    ensures
        r == enabled_of(word@),
{
    if str_eq(word, "true") {
        Some(true)
    } else if str_eq(word, "false") {
        Some(false)
    } else {
        None
    }
}

/// Reads `first` or `last`.
pub fn parse_precedence(word: &str) -> (r: Option<bool>)
    ensures
        r == first_of(word@),
{
    if str_eq(word, "first") {
        Some(true)
    } else if str_eq(word, "last") {
        Some(false)
    } else {
        None
    }
}

/// A repository backend.
#[derive(Clone, Debug, PartialEq, Eq)]
pub enum Repo {
    Dummy(DummyRepo),
    Gentoo(GentooRepo),
}

/// The model of a [`Repo`].
pub ghost enum RepoView {
    Dummy,
    Gentoo(GentooRepoView),
}

impl View for Repo {
    type V = RepoView;

    open spec fn view(&self) -> RepoView {
        match self {
            Repo::Dummy(_) => RepoView::Dummy,
            Repo::Gentoo(g) => RepoView::Gentoo(g@),
        }
    }
}

/// The backend that `add` makes for a kind, if the kind is known.
pub open spec fn backend_of(kind: Seq<char>) -> Option<RepoView> {
    if kind == "dummy"@ {
        Some(RepoView::Dummy)
    } else if kind == "gentoo"@ {
        Some(
            RepoView::Gentoo(
                GentooRepoView {
                    location: Seq::empty(),
                    sync_type: SyncType::Rsync,
                    sync_uri: Seq::empty(),
                },
            ),
        )
    } else {
        None
    }
}

impl Repo {
    /// The backend of the given kind, with the kind's defaults.
    pub fn from_kind(kind: &str) -> (r: Result<Repo, RepoError>)
        ensures
            match r {
                Ok(repo) => backend_of(kind@) == Some(repo@),
                Err(e) => e == RepoError::NoSuchBackendKind && backend_of(kind@) is None,
            },
    {
        if str_eq(kind, "dummy") {
            Ok(Repo::Dummy(DummyRepo))
        } else if str_eq(kind, "gentoo") {
            Ok(Repo::Gentoo(GentooRepo::default()))
        } else {
            Err(RepoError::NoSuchBackendKind)
        }
    }
}

/// The registry: the backends by name, and the names that are consulted by
/// default, first to last.
#[derive(Clone, Debug, PartialEq, Eq)]
pub struct RepoConfig {
    default_repos: Vec<String>,
    repos: Vec<(String, Repo)>,
}

/// The model of a [`RepoConfig`].
pub ghost struct RepoConfigView {
    pub default_repos: Seq<Seq<char>>,
    pub repos: Map<Seq<char>, RepoView>,
}

/// The names and backends of a vector of registry entries.
pub open spec fn repo_entries(repos: Seq<(String, Repo)>) -> Seq<(Seq<char>, RepoView)> {
    Seq::new(repos.len(), |i: int| (repos[i].0@, repos[i].1@))
}

/// `names` with every `old_name` replaced by `new_name`, each in its place.
pub open spec fn renamed(names: Seq<Seq<char>>, old_name: Seq<char>, new_name: Seq<char>) -> Seq<
    Seq<char>,
> {
    Seq::new(
        names.len(),
        |i: int|
            if names[i] == old_name {
                new_name
            } else {
                names[i]
            },
    )
}

/// `names` holds every key once and nothing else.
pub open spec fn lists_keys<V>(names: Seq<Seq<char>>, m: Map<Seq<char>, V>) -> bool {
    &&& names.no_duplicates()
    &&& forall|k: Seq<char>| names.contains(k) <==> m.contains_key(k)
}

impl RepoConfigView {
    /// Every default name is the name of a repository.
    pub open spec fn consistent(self) -> bool {
        forall|i: int|
            0 <= i < self.default_repos.len() ==> self.repos.contains_key(
                #[trigger] self.default_repos[i],
            )
    }

    /// The registry after `add`: the backend stands under the name, in place
    /// of any that stood there.
    pub open spec fn add(self, name: Seq<char>, repo: RepoView) -> Self {
        RepoConfigView { repos: self.repos.insert(name, repo), ..self }
    }

    /// The registry after a successful `remove`: the repository is gone, from
    /// the defaults too.
    pub open spec fn remove(self, name: Seq<char>) -> Self {
        RepoConfigView {
            default_repos: without(self.default_repos, name),
            repos: self.repos.remove(name),
        }
    }

    /// The registry after a successful `rename`: the backend stands under the
    /// new name, and the defaults name it there.
    pub open spec fn rename(self, old_name: Seq<char>, new_name: Seq<char>) -> Self {
        RepoConfigView {
            default_repos: renamed(self.default_repos, old_name, new_name),
            repos: self.repos.remove(old_name).insert(new_name, self.repos[old_name]),
        }
    }

    /// The registry after a successful `set_default`: the name is taken out of
    /// the defaults and, if `enabled`, put back at the front or at the back.
    pub open spec fn set_default(self, name: Seq<char>, enabled: bool, first: bool) -> Self {
        let rest = without(self.default_repos, name);
        RepoConfigView {
            default_repos: if !enabled {
                rest
            } else if first {
                seq![name] + rest
            } else {
                rest.push(name)
            },
            ..self
        }
    }
}

impl View for RepoConfig {
    type V = RepoConfigView;

    closed spec fn view(&self) -> RepoConfigView {
        RepoConfigView {
            default_repos: views(self.default_repos@),
            repos: table_of(repo_entries(self.repos@)),
        }
    }
}

impl RepoConfig {
    /// Well-formedness: no repository name stands twice in the registry.
    pub closed spec fn wf(&self) -> bool {
        keys_distinct(repo_entries(self.repos@))
    }

    /// A registry without repositories.
    pub fn new() -> (r: Self)
        ensures
            r.wf(),
            r@ == (RepoConfigView { default_repos: Seq::empty(), repos: Map::empty() }),
    {
        let r = RepoConfig { default_repos: Vec::new(), repos: Vec::new() };
        proof {
            assert(views(r.default_repos@) =~= Seq::empty());
            assert(repo_entries(r.repos@) =~= Seq::empty());
        }
        r
    }

    /// The position of the repository with the given name.
    fn position(&self, name: &String) -> (r: Option<usize>)
        requires
            self.wf(),
        ensures
            match r {
                Some(i) => i < self.repos.len() && self.repos[i as int].0@ == name@
                    && self@.repos.contains_key(name@) && self@.repos[name@]
                    == self.repos[i as int].1@,
                None => !self@.repos.contains_key(name@),
            },
    {
        let mut i: usize = 0;
        proof {
            lemma_table_of_dom(repo_entries(self.repos@), name@);
        }
        while i < self.repos.len()
            invariant
                self.wf(),
                i <= self.repos.len(),
                forall|k: int| 0 <= k < i ==> (#[trigger] self.repos[k]).0@ != name@,
            decreases self.repos.len() - i,
        {
            if self.repos[i].0 == *name {
                proof {
                    assert(repo_entries(self.repos@)[i as int].0 == name@);
                    lemma_table_of_lookup(repo_entries(self.repos@), i as int);
                }
                return Some(i);
            }
            i = i + 1;
        }
        proof {
            let e = repo_entries(self.repos@);
            assert forall|k: int| 0 <= k < e.len() implies (#[trigger] e[k]).0 != name@ by {
                assert(self.repos[k].0@ != name@);
            }
        }
        None
    }

    /// Whether a repository has the given name.
    pub fn contains(&self, name: &str) -> (r: bool)
        requires
            self.wf(),
        ensures
            r == self@.repos.contains_key(name@),
    {
        self.position(&name.to_owned()).is_some()
    }

    /// The backend of the repository with the given name.
    pub fn get(&self, name: &str) -> (r: Option<&Repo>)
        requires
            self.wf(),
        ensures
            match r {
                Some(repo) => self@.repos.contains_key(name@) && self@.repos[name@] == repo@,
                None => !self@.repos.contains_key(name@),
            },
    {
        match self.position(&name.to_owned()) {
            Some(i) => Some(&self.repos[i].1),
            None => None,
        }
    }

    /// The names of the repositories. With `only_default`, the default names
    /// in their order of precedence, which `sort` leaves alone. Otherwise the
    /// name of every repository, once; in ascending order if `sort`.
    pub fn list(&self, sort: bool, only_default: bool) -> (names: Vec<String>)
        requires
            self.wf(),
        ensures
            only_default ==> views(names@) == self@.default_repos,
            !only_default ==> lists_keys(views(names@), self@.repos),
            !only_default && sort ==> ascending(views(names@)),
    {
        let mut names: Vec<String> = Vec::new();
        let mut i: usize = 0;
        if only_default {
            while i < self.default_repos.len()
                invariant
                    i <= self.default_repos.len(),
                    names.len() == i,
                    forall|k: int| 0 <= k < i ==> (#[trigger] names[k])@ == self.default_repos[k]@,
                decreases self.default_repos.len() - i,
            {
                names.push(self.default_repos[i].clone());
                i = i + 1;
            }
            assert(views(names@) =~= views(self.default_repos@));
            return names;
        }
        while i < self.repos.len()
            invariant
                i <= self.repos.len(),
                names.len() == i,
                forall|k: int| 0 <= k < i ==> (#[trigger] names[k])@ == self.repos[k].0@,
            decreases self.repos.len() - i,
        {
            names.push(self.repos[i].0.clone());
            i = i + 1;
        }
        proof {
            let e = repo_entries(self.repos@);
            let keys = views(names@);
            assert forall|a: int, b: int| 0 <= a < keys.len() && 0 <= b < keys.len() && a
                != b implies keys[a] != keys[b] by {
                assert(keys[a] == e[a].0 && keys[b] == e[b].0);
                if a < b {
                    assert(e[a].0 != e[b].0);
                } else {
                    assert(e[b].0 != e[a].0);
                }
            }
            assert forall|k: Seq<char>| keys.contains(k) <==> self@.repos.contains_key(k) by {
                lemma_table_of_dom(e, k);
                if keys.contains(k) {
                    let a = choose|a: int| 0 <= a < keys.len() && keys[a] == k;
                    assert(e[a].0 == k);
                }
                if has_key(e, k) {
                    let a = choose|a: int| 0 <= a < e.len() && (#[trigger] e[a]).0 == k;
                    assert(keys[a] == k);
                }
            }
        }
        if sort {
            let sorted = sort_names(&names);
            proof {
                let s = views(sorted@);
                assert forall|a: int, b: int| 0 <= a < s.len() && 0 <= b < s.len() && a
                    != b implies s[a] != s[b] by {
                    lemma_lex_irreflexive(s[a]);
                    if a < b {
                        assert(lex_lt(s[a], s[b]));
                    } else {
                        assert(lex_lt(s[b], s[a]));
                    }
                }
            }
            sorted
        } else {
            names
        }
    }

    /// Puts a backend under a name, in place of any that stood there.
    pub fn insert(&mut self, name: String, repo: Repo)
        requires
            old(self).wf(),
        ensures
            final(self).wf(),
            final(self)@ == old(self)@.add(name@, repo@),
    {
        let ghost e = repo_entries(self.repos@);
        match self.position(&name) {
            Some(i) => {
                self.repos.set(i, (name, repo));
                proof {
                    lemma_table_of_update(e, i as int, repo@);
                    assert(repo_entries(self.repos@) =~= e.update(i as int, (e[i as int].0, repo@)));
                }
            },
            None => {
                self.repos.push((name, repo));
                proof {
                    lemma_table_of_dom(e, name@);
                    lemma_push_distinct(e, (name@, repo@));
                    assert(repo_entries(self.repos@) =~= e.push((name@, repo@)));
                    assert(repo_entries(self.repos@).drop_last() =~= e);
                }
            },
        }
    }

    /// Adds a repository of the given kind under the given name. A repository
    /// that already has the name is replaced.
    pub fn add(&mut self, name: String, kind: &str) -> (r: Result<(), RepoError>)
        requires
            old(self).wf(),
        ensures
            final(self).wf(),
            match backend_of(kind@) {
                Some(b) => r is Ok && final(self)@ == old(self)@.add(name@, b),
                None => r == Err::<(), RepoError>(RepoError::NoSuchBackendKind) && final(self)@
                    == old(self)@,
            },
    {
        match Repo::from_kind(kind) {
            Ok(repo) => {
                self.insert(name, repo);
                Ok(())
            },
            Err(e) => Err(e),
        }
    }

    /// Removes the repository with the given name, from the defaults too.
    pub fn remove(&mut self, name: &str) -> (r: Result<(), RepoError>)
        requires
            old(self).wf(),
        ensures
            final(self).wf(),
            if old(self)@.repos.contains_key(name@) {
                r is Ok && final(self)@ == old(self)@.remove(name@)
            } else {
                r == Err::<(), RepoError>(RepoError::NoSuchRepo) && final(self)@ == old(self)@
            },
    {
        let key = name.to_owned();
        let ghost e = repo_entries(self.repos@);
        match self.position(&key) {
            Some(i) => {
                self.repos.remove(i);
                self.default_repos = remove_all(&self.default_repos, &key);
                proof {
                    lemma_table_of_remove(e, i as int);
                    assert(repo_entries(self.repos@) =~= e.remove(i as int));
                }
                Ok(())
            },
            None => Err(RepoError::NoSuchRepo),
        }
    }

    /// Gives the repository `old_name` the name `new_name`, in the defaults
    /// too. The new name must not be the name of another repository.
    pub fn rename(&mut self, old_name: &str, new_name: &str) -> (r: Result<(), RepoError>)
        requires
            old(self).wf(),
            old(self)@.repos.contains_key(old_name@) ==> new_name@ == old_name@ || !old(
                self,
            )@.repos.contains_key(new_name@),
        ensures
            final(self).wf(),
            if old(self)@.repos.contains_key(old_name@) {
                r is Ok && final(self)@ == old(self)@.rename(old_name@, new_name@)
            } else {
                r == Err::<(), RepoError>(RepoError::NoSuchRepo) && final(self)@ == old(self)@
            },
    {
        let old_key = old_name.to_owned();
        let ghost e = repo_entries(self.repos@);
        let i = match self.position(&old_key) {
            Some(i) => i,
            None => {
                return Err(RepoError::NoSuchRepo);
            },
        };
        let mut key = new_name.to_owned();
        proof {
            lemma_table_of_dom(e, new_name@);
            lemma_table_of_rekey(e, i as int, new_name@);
        }
        core::mem::swap(&mut self.repos[i].0, &mut key);
        proof {
            assert(repo_entries(self.repos@) =~= e.update(i as int, (new_name@, e[i as int].1)));
        }
        let mut names: Vec<String> = Vec::new();
        let mut k: usize = 0;
        while k < self.default_repos.len()
            invariant
                k <= self.default_repos.len(),
                names.len() == k,
                old_key@ == old_name@,
                forall|j: int|
                    0 <= j < k ==> (#[trigger] names[j])@ == if self.default_repos[j]@
                        == old_name@ {
                        new_name@
                    } else {
                        self.default_repos[j]@
                    },
            decreases self.default_repos.len() - k,
        {
            if self.default_repos[k] == old_key {
                names.push(new_name.to_owned());
            } else {
                names.push(self.default_repos[k].clone());
            }
            k = k + 1;
        }
        proof {
            assert(views(names@) =~= renamed(views(self.default_repos@), old_name@, new_name@));
        }
        self.default_repos = names;
        Ok(())
    }

    /// Takes the name out of the defaults and, if `default`, puts it back: at
    /// the front if `first`, else at the back.
    pub fn set_default(&mut self, name: String, default: bool, first: bool) -> (r: Result<
        (),
        RepoError,
    >)
        requires
            old(self).wf(),
        ensures
            final(self).wf(),
            if old(self)@.repos.contains_key(name@) {
                r is Ok && final(self)@ == old(self)@.set_default(name@, default, first)
            } else {
                r == Err::<(), RepoError>(RepoError::NoSuchRepo) && final(self)@ == old(self)@
            },
    {
        if self.position(&name).is_none() {
            return Err(RepoError::NoSuchRepo);
        }
        let mut rest = remove_all(&self.default_repos, &name);
        let ghost before = views(rest@);
        if default {
            if first {
                rest.insert(0, name);
                assert(views(rest@) =~= seq![name@] + before);
            } else {
                rest.push(name);
                assert(views(rest@) =~= before.push(name@));
            }
        }
        self.default_repos = rest;
        Ok(())
    }
}

/// One operation on the registry.
pub ghost enum RegistryOp {
    Add { name: Seq<char>, repo: RepoView },
    Remove { name: Seq<char> },
    Rename { old_name: Seq<char>, new_name: Seq<char> },
    SetDefault { name: Seq<char>, enabled: bool, first: bool },
}

impl RepoConfigView {
    /// Whether the registry takes the operation: all but a rename onto the
    /// name of another repository.
    pub open spec fn accepts(self, op: RegistryOp) -> bool {
        match op {
            RegistryOp::Rename { old_name, new_name } => self.repos.contains_key(old_name)
                ==> new_name == old_name || !self.repos.contains_key(new_name),
            _ => true,
        }
    }

    /// The registry after the operation. One that fails leaves it as it was.
    pub open spec fn step(self, op: RegistryOp) -> Self {
        match op {
            RegistryOp::Add { name, repo } => self.add(name, repo),
            RegistryOp::Remove { name } => if self.repos.contains_key(name) {
                self.remove(name)
            } else {
                self
            },
            RegistryOp::Rename { old_name, new_name } => if self.repos.contains_key(old_name) {
                self.rename(old_name, new_name)
            } else {
                self
            },
            RegistryOp::SetDefault { name, enabled, first } => if self.repos.contains_key(name) {
                self.set_default(name, enabled, first)
            } else {
                self
            },
        }
    }

    /// Whether the registry takes each of the operations in its turn.
    pub open spec fn accepts_all(self, ops: Seq<RegistryOp>) -> bool
        decreases ops.len(),
    {
        ops.len() > 0 ==> self.accepts(ops[0]) && self.step(ops[0]).accepts_all(ops.drop_first())
    }

    /// The registry after the operations, one after the other.
    pub open spec fn run(self, ops: Seq<RegistryOp>) -> Self
        decreases ops.len(),
    {
        if ops.len() == 0 {
            self
        } else {
            self.step(ops[0]).run(ops.drop_first())
        }
    }
}

/// No operation leaves a default name without a repository.
pub proof fn lemma_step_consistent(state: RepoConfigView, op: RegistryOp)
    requires
        state.consistent(),
    ensures
        state.step(op).consistent(),
{
    let after = state.step(op);
    assert forall|i: int| 0 <= i < after.default_repos.len() implies after.repos.contains_key(
        #[trigger] after.default_repos[i],
    ) by {
        let x = after.default_repos[i];
        match op {
            RegistryOp::Add { name, repo } => {},
            RegistryOp::Remove { name } => {
                if state.repos.contains_key(name) {
                    lemma_without_contains(state.default_repos, name, x);
                    assert(after.default_repos.contains(x));
                    let k = choose|k: int|
                        0 <= k < state.default_repos.len() && state.default_repos[k] == x;
                    assert(state.repos.contains_key(state.default_repos[k]));
                }
            },
            RegistryOp::Rename { old_name, new_name } => {
                if state.repos.contains_key(old_name) {
                    assert(state.repos.contains_key(state.default_repos[i]));
                }
            },
            RegistryOp::SetDefault { name, enabled, first } => {
                if state.repos.contains_key(name) {
                    let rest = without(state.default_repos, name);
                    if x != name {
                        if enabled && first {
                            assert(rest[i - 1] == x);
                        } else {
                            assert(rest[i] == x);
                        }
                        assert(rest.contains(x));
                        lemma_without_contains(state.default_repos, name, x);
                        let k = choose|k: int|
                            0 <= k < state.default_repos.len() && state.default_repos[k] == x;
                        assert(state.repos.contains_key(state.default_repos[k]));
                    }
                }
            },
        }
    }
}

/// Consistency of the registry: after any operations that it takes, every
/// default name is still the name of a repository.
pub proof fn lemma_registry_consistent(state: RepoConfigView, ops: Seq<RegistryOp>)
    requires
        state.consistent(),
        state.accepts_all(ops),
    ensures
        state.run(ops).consistent(),
    decreases ops.len(),
{
    if ops.len() > 0 {
        lemma_step_consistent(state, ops[0]);
        lemma_registry_consistent(state.step(ops[0]), ops.drop_first());
    }
}

/// Making a repository the first default twice is the same as doing it once:
/// the name then stands at the front of the defaults, and nowhere else.
pub proof fn lemma_set_default_idempotent(state: RepoConfigView, name: Seq<char>)
    requires
        state.repos.contains_key(name),
    ensures
        ({
            let once = state.set_default(name, true, true);
            let twice = once.set_default(name, true, true);
            &&& twice == once
            &&& once.default_repos[0] == name
            &&& !once.default_repos.drop_first().contains(name)
        }),
{
    let rest = without(state.default_repos, name);
    let once = state.set_default(name, true, true);
    assert(once.default_repos.drop_first() =~= rest);
    lemma_without_contains(state.default_repos, name, name);
    lemma_without_front(rest, name);
    lemma_without_absent(rest, name);
    assert(once.set_default(name, true, true).default_repos =~= once.default_repos);
}

/// A name at the front is taken out with the rest.
pub proof fn lemma_without_front(names: Seq<Seq<char>>, name: Seq<char>)
    ensures
        without(seq![name] + names, name) == without(names, name),
    decreases names.len(),
{
    let all = seq![name] + names;
    if names.len() == 0 {
        assert(all.drop_last() =~= Seq::empty());
        assert(all.last() == name);
        assert(without(all.drop_last(), name) =~= Seq::empty());
        assert(without(names, name) =~= Seq::empty());
    } else {
        assert(all.drop_last() =~= seq![name] + names.drop_last());
        assert(all.last() == names.last());
        lemma_without_front(names.drop_last(), name);
    }
}

/// The table that a backend is written as: its kind under `type`, and the
/// fields of the kind.
pub open spec fn repo_value(r: RepoView) -> ValueView {
    match r {
        RepoView::Dummy => ValueView::Table(
            Map::empty().insert("type"@, ValueView::String("dummy"@)),
        ),
        RepoView::Gentoo(g) => ValueView::Table(
            gentoo_fields(Map::empty().insert("type"@, ValueView::String("gentoo"@)), g),
        ),
    }
}

/// The backend that a table describes: `type` names the kind, and the kind
/// says which fields are read.
pub open spec fn repo_from(v: ValueView) -> Option<RepoView> {
    match field(v, "type"@) {
        Some(ValueView::String(kind)) => if kind == "dummy"@ {
            Some(RepoView::Dummy)
        } else if kind == "gentoo"@ {
            match gentoo_from(v) {
                Some(g) => Some(RepoView::Gentoo(g)),
                None => None,
            }
        } else {
            None
        },
        _ => None,
    }
}

/// A backend is read back from the table it is written as.
pub proof fn lemma_repo_round_trip(r: RepoView)
    ensures
        repo_from(repo_value(r)) == Some(r),
{
    reveal_strlit("dummy");
    reveal_strlit("gentoo");
    assert("dummy"@.len() != "gentoo"@.len());
    match r {
        RepoView::Dummy => {},
        RepoView::Gentoo(g) => {
            lemma_gentoo_keys();
            lemma_gentoo_round_trip(
                Map::empty().insert("type"@, ValueView::String("gentoo"@)),
                g,
            );
        },
    }
}

impl Repo {
    /// The table that this backend is written as.
    pub fn to_value(&self) -> (v: ConfigValue)
        ensures
            v@ == repo_value(self@),
            v.wf(),
    {
        let mut table = ConfigValue::new_table();
        match self {
            Repo::Dummy(_) => {
                table.insert("type".to_owned(), ConfigValue::String("dummy".to_owned()));
            },
            Repo::Gentoo(g) => {
                table.insert("type".to_owned(), ConfigValue::String("gentoo".to_owned()));
                g.write_fields(&mut table);
            },
        }
        table
    }

    /// The backend that the table describes.
    pub fn from_value(v: &ConfigValue) -> (r: Result<Repo, ConfigError>)
        requires
            v.wf(),
        ensures
            match r {
                Ok(repo) => repo_from(v@) == Some(repo@),
                Err(e) => e == ConfigError::SchemaMismatch && repo_from(v@) is None,
            },
    {
        let kind = match v.get("type") {
            Some(ConfigValue::String(s)) => s,
            _ => {
                return Err(ConfigError::SchemaMismatch);
            },
        };
        if str_eq(kind.as_str(), "dummy") {
            Ok(Repo::Dummy(DummyRepo))
        } else if str_eq(kind.as_str(), "gentoo") {
            match GentooRepo::from_value(v) {
                Ok(g) => Ok(Repo::Gentoo(g)),
                Err(e) => Err(e),
            }
        } else {
            Err(ConfigError::SchemaMismatch)
        }
    }
}

/// The array that a list of names is written as.
pub open spec fn names_value(names: Seq<Seq<char>>) -> ValueView {
    ValueView::Array(Seq::new(names.len(), |i: int| ValueView::String(names[i])))
}

/// The list of names that a value gives: a string is a list of one, an array
/// of strings is the list of them, anything else is no list.
pub open spec fn names_from(v: ValueView) -> Option<Seq<Seq<char>>> {
    match v {
        ValueView::String(s) => Some(seq![s]),
        ValueView::Array(a) => if forall|i: int| 0 <= i < a.len() ==> #[trigger] a[i] is String {
            Some(Seq::new(a.len(), |i: int| a[i]->String_0))
        } else {
            None
        },
        _ => None,
    }
}

/// A list of names is read back from the array it is written as.
pub proof fn lemma_names_round_trip(names: Seq<Seq<char>>)
    ensures
        names_from(names_value(names)) == Some(names),
{
    let a = names_value(names)->Array_0;
    assert(names_from(names_value(names)).unwrap() =~= names);
}

/// Reads a list of names: one string, or an array of strings.
pub fn string_or_seq(v: &ConfigValue) -> (r: Result<Vec<String>, ConfigError>)
    requires
        v.wf(),
    ensures
        match r {
            Ok(names) => names_from(v@) == Some(views(names@)),
            Err(e) => e == ConfigError::SchemaMismatch && names_from(v@) is None,
        },
{
    match v {
        ConfigValue::String(s) => {
            let mut names: Vec<String> = Vec::new();
            names.push(s.clone());
            assert(views(names@) =~= seq![s@]);
            Ok(names)
        },
        ConfigValue::Array(items) => {
            proof {
                ConfigValue::lemma_array_view(*items);
            }
            let mut names: Vec<String> = Vec::new();
            let mut i: usize = 0;
            while i < items.len()
                invariant
                    i <= items.len(),
                    names.len() == i,
                    v@ == ValueView::Array(element_views(items@)),
                    forall|k: int| 0 <= k < items.len() ==> (#[trigger] items[k]).wf(),
                    forall|k: int|
                        0 <= k < i ==> items[k]@ == ValueView::String((#[trigger] names[k])@),
                decreases items.len() - i,
            {
                match &items[i] {
                    ConfigValue::String(s) => {
                        names.push(s.clone());
                    },
                    _ => {
                        assert(!(element_views(items@)[i as int] is String));
                        return Err(ConfigError::SchemaMismatch);
                    },
                }
                i = i + 1;
            }
            proof {
                let a = element_views(items@);
                assert forall|k: int| 0 <= k < a.len() implies #[trigger] a[k] is String by {
                    assert(items[k]@ == ValueView::String(names[k]@));
                }
                assert(names_from(v@).unwrap() =~= views(names@));
            }
            Ok(names)
        },
        _ => Err(ConfigError::SchemaMismatch),
    }
}

/// The section that a registry is written as: the defaults under `default`,
/// and each repository under its name.
pub open spec fn registry_value(r: RepoConfigView) -> ValueView {
    ValueView::Table(
        Map::new(
            |k: Seq<char>| k == "default"@ || r.repos.contains_key(k),
            |k: Seq<char>|
                if k == "default"@ {
                    names_value(r.default_repos)
                } else {
                    repo_value(r.repos[k])
                },
        ),
    )
}

/// The registry that a section describes: a table with a list of names under
/// `default` and a backend under every other key.
pub open spec fn registry_from(v: ValueView) -> Option<RepoConfigView> {
    match v {
        ValueView::Table(m) => if m.contains_key("default"@) && names_from(m["default"@]) is Some
            && forall|k: Seq<char>|
            m.contains_key(k) && k != "default"@ ==> (#[trigger] repo_from(m[k])) is Some {
            Some(
                RepoConfigView {
                    default_repos: names_from(m["default"@]).unwrap(),
                    repos: Map::new(
                        |k: Seq<char>| m.contains_key(k) && k != "default"@,
                        |k: Seq<char>| repo_from(m[k]).unwrap(),
                    ),
                },
            )
        } else {
            None
        },
        _ => None,
    }
}

/// A registry in which no repository is named `default` is read back from the
/// section it is written as.
pub proof fn lemma_registry_round_trip(r: RepoConfigView)
    requires
        !r.repos.contains_key("default"@),
    ensures
        registry_from(registry_value(r)) == Some(r),
{
    let m = registry_value(r)->Table_0;
    lemma_names_round_trip(r.default_repos);
    assert forall|k: Seq<char>| m.contains_key(k) && k != "default"@ implies (#[trigger] repo_from(
        m[k],
    )) == Some(r.repos[k]) by {
        lemma_repo_round_trip(r.repos[k]);
    }
    let back = registry_from(registry_value(r)).unwrap();
    assert(back.repos =~= r.repos);
}

/// The keys and values that the repositories are written as.
pub open spec fn written_entries(e: Seq<(Seq<char>, RepoView)>) -> Seq<(Seq<char>, ValueView)> {
    Seq::new(e.len(), |i: int| (e[i].0, repo_value(e[i].1)))
}

impl RepoConfig {
    /// The section that this registry is written as. A registry with a
    /// repository named `default` cannot be written: the name is taken by the
    /// list of defaults.
    pub fn to_value(&self) -> (r: Result<ConfigValue, ConfigError>)
        requires
            self.wf(),
        ensures
            match r {
                Ok(v) => !self@.repos.contains_key("default"@) && v@ == registry_value(self@)
                    && v.wf(),
                Err(e) => e == ConfigError::Unrepresentable && self@.repos.contains_key(
                    "default"@,
                ),
            },
    {
        let key = "default".to_owned();
        if self.position(&key).is_some() {
            return Err(ConfigError::Unrepresentable);
        }
        let mut names: Vec<ConfigValue> = Vec::new();
        let mut i: usize = 0;
        while i < self.default_repos.len()
            invariant
                i <= self.default_repos.len(),
                names.len() == i,
                forall|k: int|
                    0 <= k < i ==> (#[trigger] names[k])@ == ValueView::String(
                        self.default_repos[k]@,
                    ) && names[k].wf(),
            decreases self.default_repos.len() - i,
        {
            names.push(ConfigValue::String(self.default_repos[i].clone()));
            i = i + 1;
        }
        let defaults = ConfigValue::Array(names);
        proof {
            ConfigValue::lemma_array_view(names);
            assert(element_views(names@) =~= names_value(self@.default_repos)->Array_0);
        }
        let mut table = ConfigValue::new_table();
        table.insert(key, defaults);
        let ghost e = repo_entries(self.repos@);
        let ghost head = seq![("default"@, names_value(self@.default_repos))];
        let ghost all = head + written_entries(e);
        proof {
            assert(head.drop_last() =~= Seq::empty());
            assert(table_of(head.drop_last()) =~= Map::empty());
            assert(all.take(1) =~= head);
        }
        let mut j: usize = 0;
        while j < self.repos.len()
            invariant
                j <= self.repos.len(),
                self.wf(),
                e == repo_entries(self.repos@),
                head.len() == 1,
                all == head + written_entries(e),
                table.wf(),
                table@ == ValueView::Table(table_of(all.take(j + 1))),
            decreases self.repos.len() - j,
        {
            let value = self.repos[j].1.to_value();
            table.insert(self.repos[j].0.clone(), value);
            proof {
                assert(all.len() == e.len() + 1 && e.len() == self.repos.len());
                let next = all.take(j + 2);
                assert(next.drop_last() =~= all.take(j + 1));
                assert(next.last() == (e[j as int].0, repo_value(e[j as int].1)));
            }
            j = j + 1;
        }
        proof {
            assert(all.take(self.repos.len() + 1) =~= all);
            // Every key stands once in `all`, so the table holds each entry.
            lemma_table_of_dom(e, "default"@);
            assert forall|a: int, b: int| 0 <= a < b < all.len() implies (#[trigger] all[a]).0 != (
            #[trigger] all[b]).0 by {
                if a == 0 {
                    assert(e[b - 1].0 == all[b].0);
                } else {
                    assert(e[a - 1].0 == all[a].0 && e[b - 1].0 == all[b].0);
                }
            }
            let m = table_of(all);
            let want = registry_value(self@)->Table_0;
            assert forall|k: Seq<char>| m.contains_key(k) <==> want.contains_key(k) by {
                lemma_table_of_dom(all, k);
                lemma_table_of_dom(e, k);
                if has_key(all, k) {
                    let a = choose|a: int| 0 <= a < all.len() && (#[trigger] all[a]).0 == k;
                    if a > 0 {
                        assert(e[a - 1].0 == k);
                    }
                }
                if has_key(e, k) {
                    let a = choose|a: int| 0 <= a < e.len() && (#[trigger] e[a]).0 == k;
                    assert(all[a + 1].0 == k);
                }
                if k == "default"@ {
                    assert(all[0].0 == k);
                }
            }
            assert forall|k: Seq<char>| m.contains_key(k) implies m[k] == want[k] by {
                lemma_table_of_dom(all, k);
                let a = choose|a: int| 0 <= a < all.len() && (#[trigger] all[a]).0 == k;
                lemma_table_of_lookup(all, a);
                if a > 0 {
                    assert(e[a - 1].0 == k);
                    lemma_table_of_lookup(e, a - 1);
                }
            }
            assert(m =~= want);
        }
        Ok(table)
    }

    /// The registry that the section describes.
    pub fn from_value(v: &ConfigValue) -> (r: Result<RepoConfig, ConfigError>)
        requires
            v.wf(),
        ensures
            match r {
                Ok(c) => registry_from(v@) == Some(c@) && c.wf(),
                Err(e) => e == ConfigError::SchemaMismatch && registry_from(v@) is None,
            },
    {
        let entries = match v {
            ConfigValue::Table(entries) => entries,
            _ => {
                return Err(ConfigError::SchemaMismatch);
            },
        };
        let ghost ev = entry_views(entries@);
        let ghost m = table_of(ev);
        proof {
            ConfigValue::lemma_table_view(*entries);
        }
        let key = "default".to_owned();
        let mut defaults: Option<Vec<String>> = None;
        let mut repos: Vec<(String, Repo)> = Vec::new();
        let mut i: usize = 0;
        assert(repo_entries(repos@) =~= Seq::empty());
        while i < entries.len()
            invariant
                i <= entries.len(),
                key@ == "default"@,
                ev == entry_views(entries@),
                m == table_of(ev),
                v@ == ValueView::Table(m),
                keys_distinct(ev),
                forall|k: int| 0 <= k < entries.len() ==> (#[trigger] entries[k]).1.wf(),
                keys_distinct(repo_entries(repos@)),
                forall|k: Seq<char>|
                    has_key(repo_entries(repos@), k) <==> has_key(ev.take(i as int), k) && k
                        != "default"@,
                forall|k: Seq<char>|
                    has_key(repo_entries(repos@), k) ==> repo_from(m[k]) == Some(
                        #[trigger] table_of(repo_entries(repos@))[k],
                    ),
                match defaults {
                    Some(names) => has_key(ev.take(i as int), "default"@) && names_from(
                        m["default"@],
                    ) == Some(views(names@)),
                    None => !has_key(ev.take(i as int), "default"@),
                },
            decreases entries.len() - i,
        {
            let ghost k0 = ev[i as int].0;
            let ghost done = repo_entries(repos@);
            proof {
                lemma_table_of_lookup(ev, i as int);
                lemma_table_of_dom(ev, k0);
                // The key at `i` stands nowhere before `i`.
                if has_key(ev.take(i as int), k0) {
                    let a = choose|a: int|
                        0 <= a < i && (#[trigger] ev.take(i as int)[a]).0 == k0;
                    assert(ev[a].0 == ev[i as int].0);
                }
                assert forall|k: Seq<char>|
                    has_key(ev.take(i + 1), k) <==> has_key(ev.take(i as int), k) || k == k0 by {
                    if has_key(ev.take(i + 1), k) {
                        let a = choose|a: int|
                            0 <= a < i + 1 && (#[trigger] ev.take(i + 1)[a]).0 == k;
                        if a < i {
                            assert(ev.take(i as int)[a].0 == k);
                        }
                    }
                    if has_key(ev.take(i as int), k) {
                        let a = choose|a: int|
                            0 <= a < i && (#[trigger] ev.take(i as int)[a]).0 == k;
                        assert(ev.take(i + 1)[a].0 == k);
                    }
                    if k == k0 {
                        assert(ev.take(i + 1)[i as int].0 == k);
                    }
                }
            }
            if entries[i].0 == key {
                match string_or_seq(&entries[i].1) {
                    Ok(names) => {
                        defaults = Some(names);
                    },
                    Err(e) => {
                        return Err(e);
                    },
                }
            } else {
                match Repo::from_value(&entries[i].1) {
                    Ok(repo) => {
                        repos.push((entries[i].0.clone(), repo));
                        proof {
                            let now = repo_entries(repos@);
                            lemma_push_distinct(done, (k0, repo@));
                            assert(now =~= done.push((k0, repo@)));
                            assert(now.drop_last() =~= done);
                            assert forall|k: Seq<char>|
                                has_key(now, k) <==> has_key(done, k) || k == k0 by {
                                if has_key(now, k) {
                                    let a = choose|a: int|
                                        0 <= a < now.len() && (#[trigger] now[a]).0 == k;
                                    if a < done.len() {
                                        assert(done[a].0 == k);
                                    }
                                }
                                if has_key(done, k) {
                                    let a = choose|a: int|
                                        0 <= a < done.len() && (#[trigger] done[a]).0 == k;
                                    assert(now[a].0 == k);
                                }
                                if k == k0 {
                                    assert(now[now.len() - 1].0 == k);
                                }
                            }
                            assert forall|k: Seq<char>| has_key(now, k) implies repo_from(m[k])
                                == Some(#[trigger] table_of(now)[k]) by {
                                if k != k0 {
                                    assert(table_of(now)[k] == table_of(done)[k]);
                                }
                            }
                        }
                    },
                    Err(e) => {
                        return Err(e);
                    },
                }
            }
            i = i + 1;
        }
        proof {
            assert(ev.take(entries.len() as int) =~= ev);
            lemma_table_of_dom(ev, "default"@);
        }
        let default_repos = match defaults {
            Some(names) => names,
            None => {
                return Err(ConfigError::SchemaMismatch);
            },
        };
        let c = RepoConfig { default_repos, repos };
        proof {
            let got = table_of(repo_entries(repos@));
            let want = registry_from(v@).unwrap().repos;
            assert forall|k: Seq<char>| m.contains_key(k) && k != "default"@ implies (
            #[trigger] repo_from(m[k])) is Some by {
                lemma_table_of_dom(ev, k);
                assert(repo_from(m[k]) == Some(got[k]));
            }
            assert forall|k: Seq<char>| got.contains_key(k) <==> want.contains_key(k) by {
                lemma_table_of_dom(repo_entries(repos@), k);
                lemma_table_of_dom(ev, k);
            }
            assert forall|k: Seq<char>| got.contains_key(k) implies got[k] == want[k] by {
                lemma_table_of_dom(repo_entries(repos@), k);
                assert(repo_from(m[k]) == Some(got[k]));
            }
            assert(got =~= want);
        }
        Ok(c)
    }
}

/// The registry of a fresh configuration: one placeholder repository,
/// `dummy`, which is also the one default.
pub open spec fn default_registry() -> RepoConfigView {
    RepoConfigView {
        default_repos: seq!["dummy"@],
        repos: Map::empty().insert("dummy"@, RepoView::Dummy),
    }
}

impl Default for RepoConfig {
    fn default() -> (r: Self)
        ensures
            r.wf(),
            r@ == default_registry(),
    {
        let mut r = RepoConfig::new();
        r.insert("dummy".to_owned(), Repo::Dummy(DummyRepo));
        r.default_repos.push("dummy".to_owned());
        proof {
            assert(views(r.default_repos@) =~= seq!["dummy"@]);
        }
        r
    }
}

} // verus!
