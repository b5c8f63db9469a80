//! Package identifiers: a name, optionally qualified by a repository.
use vstd::prelude::*;
use vstd::string::*;
use crate::text::{find_char, lemma_position_of, position_of, str_eq};

verus! {

/// A package, as named on the command line.
#[derive(Debug)]
pub struct Package<'a> {
    repo: Option<&'a str>,
    name: &'a str,
}

/// The model of a [`Package`].
pub ghost struct PackageView {
    pub repo: Option<Seq<char>>,
    pub name: Seq<char>,
}

/// The package that a text names. Up to the first `:` stands the repository,
/// after it the name; the repository `_` stands for none. Without a `:` the
/// whole text is the name.
pub open spec fn parsed(s: Seq<char>) -> PackageView {
    match position_of(s, ':') {
        Some(i) => PackageView {
            repo: if s.take(i) == "_"@ {
                None
            } else {
                Some(s.take(i))
            },
            name: s.skip(i + 1),
        },
        None => PackageView { repo: None, name: s },
    }
}

/// How a package is written out: `repo:name` with a repository; without one
/// the name, behind `<no repo>:` where the name itself holds a `:`.
pub open spec fn shown(p: PackageView) -> Seq<char> {
    match p.repo {
        Some(repo) => repo + ":"@ + p.name,
        None => if position_of(p.name, ':') is Some {
            "<no repo>:"@ + p.name
        } else {
            p.name
        },
    }
}

impl<'a> View for Package<'a> {
    type V = PackageView;

    closed spec fn view(&self) -> PackageView {
        PackageView {
            repo: match self.repo {
                Some(r) => Some(r@),
                None => None,
            },
            name: self.name@,
        }
    }
}

impl<'a> Package<'a> {
    /// A package without a repository.
    pub fn new(name: &'a str) -> (p: Self)
        ensures
            p@ == (PackageView { repo: None, name: name@ }),
    {
        Self { repo: None, name }
    }

    /// A package of the given repository.
    pub fn with_repo(repo: &'a str, name: &'a str) -> (p: Self)
        ensures
            p@ == (PackageView { repo: Some(repo@), name: name@ }),
    {
        Self { repo: Some(repo), name }
    }

    /// Reads a package from `repo:name`, `_:name` or `name`.
    pub fn parse(s: &'a str) -> (p: Self)
        ensures
            p@ == parsed(s@),
    {
        match find_char(s, ':') {
            Some(idx) => {
                proof {
                    lemma_position_of(s@, ':');
                }
                let n = s.unicode_len();
                let head = s.substring_char(0, idx);
                let tail = s.substring_char(idx + 1, n);
                proof {
                    assert(head@ =~= s@.take(idx as int));
                    assert(tail@ =~= s@.skip(idx + 1));
                }
                if str_eq(head, "_") {
                    Self { repo: None, name: tail }
                } else {
                    Self { repo: Some(head), name: tail }
                }
            },
            None => Self { repo: None, name: s },
        }
    }

    /// The repository, if the package names one.
    pub fn repo(&self) -> (r: Option<&'a str>)
        ensures
            match r {
                Some(repo) => self@.repo == Some(repo@),
                None => self@.repo is None,
            },
    {
        self.repo
    }

    /// The name of the package.
    pub fn name(&self) -> (r: &'a str)
        ensures
            r@ == self@.name,
    {
        self.name
    }

    /// The package written out.
    pub fn to_text(&self) -> (r: String)
        ensures
            r@ == shown(self@),
    {
        match self.repo {
            Some(repo) => {
                let r = repo.to_owned().concat(":").concat(self.name);
                r
            },
            None => if find_char(self.name, ':').is_some() {
                "<no repo>:".to_owned().concat(self.name)
            } else {
                self.name.to_owned()
            },
        }
    }
}

} // verus!
