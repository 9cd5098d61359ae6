//! The project manifest, `composer.json`: its requirements, its registry
//! setting and its own autoload section.
use vstd::prelude::*;

use crate::autoload::ExIndexMap;
use crate::config::{is_packagist_key, packagist_key, with_repo, GlobalConfig, Repositories};
use crate::error::ComposerError;
use crate::io::ErrWriter;
use crate::package::AutoloadEnum;
use crate::text::push_str;

verus! {

/// Package name to constraint, in the manifest's order.
pub type RequireMap = indexmap::IndexMap<String, String>;

pub type RequireEntries = Seq<(Seq<char>, Seq<char>)>;

/// The entries of a requirement map, in the map's order.
pub uninterp spec fn require_entries(m: indexmap::IndexMap<String, String>) -> Seq<
    (Seq<char>, Seq<char>),
>;

/// Relies on `IndexMap::new`: an empty map.
#[verifier::external_body]
fn require_map_new() -> (r: RequireMap)
    ensures
        require_entries(r) == Seq::<(Seq<char>, Seq<char>)>::empty(),
{
    indexmap::IndexMap::new()
}

/// Relies on `IndexMap::len`.
#[verifier::external_body]
fn require_map_len(m: &RequireMap) -> (r: usize)
    ensures
        r == require_entries(*m).len(),
{
    m.len()
}

/// Relies on `IndexMap::get_index`: the entry at index `i` in the map's order.
#[verifier::external_body]
fn require_map_get_index(m: &RequireMap, i: usize) -> (r: Option<(&String, &String)>)
    ensures
        match r {
            Some((k, v)) => i < require_entries(*m).len() && require_entries(*m)[i as int] == (
                k@,
                v@,
            ),
            None => i >= require_entries(*m).len(),
        },
{
    m.get_index(i)
}

/// Relies on `IndexMap::get_index_of`: where `key` stands in the map's order.
#[verifier::external_body]
fn require_map_get_index_of(m: &RequireMap, key: &String) -> (r: Option<usize>)
    ensures
        match r {
            Some(i) => i < require_entries(*m).len() && require_entries(*m)[i as int].0 == key@,
            None => forall|i: int|
                0 <= i < require_entries(*m).len() ==> (#[trigger] require_entries(*m)[i]).0
                    != key@,
        },
{
    m.get_index_of(key)
}

/// Relies on `IndexMap::insert_full`: an existing key keeps its place and gets
/// the new value; a new key goes last.
#[verifier::external_body]
fn require_map_insert(m: &mut RequireMap, key: String, value: String) -> (r: (usize, Option<String>))
    ensures
        match r.1 {
            Some(old_value) => {
                &&& r.0 < require_entries(*old(m)).len()
                &&& require_entries(*old(m))[r.0 as int] == (key@, old_value@)
                &&& require_entries(*final(m)) == require_entries(*old(m)).update(
                    r.0 as int,
                    (key@, value@),
                )
            },
            None => {
                &&& r.0 == require_entries(*old(m)).len()
                &&& forall|i: int|
                    0 <= i < require_entries(*old(m)).len() ==> (#[trigger] require_entries(
                        *old(m),
                    )[i]).0 != key@
                &&& require_entries(*final(m)) == require_entries(*old(m)).push((key@, value@))
            },
        },
{
    m.insert_full(key, value)
}

/// Relies on `IndexMap::swap_remove_full`: the entry of `key` is removed, and
/// the last entry takes its place.
#[verifier::external_body]
fn require_map_swap_remove(m: &mut RequireMap, key: &String) -> (r: Option<(usize, String)>)
    ensures
        match r {
            Some((i, _)) => {
                let e = require_entries(*old(m));
                &&& i < e.len()
                &&& e[i as int].0 == key@
                &&& require_entries(*final(m)) == e.update(i as int, e.last()).drop_last()
            },
            None => {
                &&& forall|i: int|
                    0 <= i < require_entries(*old(m)).len() ==> (#[trigger] require_entries(
                        *old(m),
                    )[i]).0 != key@
                &&& require_entries(*final(m)) == require_entries(*old(m))
            },
        },
{
    match m.swap_remove_full(key) {
        Some((i, _, v)) => Some((i, v)),
        None => None,
    }
}

/// The manifest.
pub struct Composer {
    pub require: Option<RequireMap>,
    pub repositories: Option<Repositories>,
    pub autoload: Option<AutoloadEnum>,
}

/// The registry used when none is configured.
pub const PACKAGE_URL: &'static str = "https://repo.packagist.org/";

pub open spec fn star() -> Seq<char> {
    "*"@
}

/// The requirements as entries; none where the manifest has no `require`.
pub open spec fn require_view(r: Option<RequireMap>) -> Option<RequireEntries> {
    match r {
        Some(m) => Some(require_entries(m)),
        None => None,
    }
}

/// `e` with `key` bound to `v`: in its place where present, last where not.
pub open spec fn with_requirement(e: RequireEntries, key: Seq<char>, v: Seq<char>) -> RequireEntries {
    if crate::autoload::has_key(e, key) {
        e.update(crate::autoload::index_of_key(e, key), (key, v))
    } else {
        e.push((key, v))
    }
}

/// One line per record that needs another runtime version, at most four.
pub open spec fn php_version_line(name: Seq<char>, origin: Seq<char>, item: (Seq<char>, Seq<char>)) -> Seq<char> {
    name + "("@ + origin + ") -> .. -> "@ + item.0 + " need PHP version is "@ + item.1
}

/// One line per record that needs a missing extension, at most four.
pub open spec fn extension_line(name: Seq<char>, origin: Seq<char>, item: (Seq<char>, Seq<char>)) -> Seq<char> {
    name + "("@ + origin + ") -> .. -> "@ + item.0 + " need ext-"@ + item.1
        + ",it is missing from your system. Install or enable PHP's "@ + item.1 + " extension."@
}

pub open spec fn pairs_view(list: Seq<(String, String)>) -> Seq<(Seq<char>, Seq<char>)> {
    list.map_values(|p: (String, String)| (p.0@, p.1@))
}

/// How many diagnostics of one kind are shown.
pub open spec fn shown(n: nat) -> nat {
    if n < 4 {
        n
    } else {
        4
    }
}

fn diagnostic_lines(name: &str, origin_version: &str, list: &Vec<(String, String)>, extension: bool) -> (r: Vec<String>)
    ensures
        r@.len() == shown(list@.len()),
        forall|i: int|
            0 <= i < r@.len() ==> (#[trigger] r@[i])@ == if extension {
                extension_line(name@, origin_version@, pairs_view(list@)[i])
            } else {
                php_version_line(name@, origin_version@, pairs_view(list@)[i])
            },
{
    let mut lines: Vec<String> = Vec::new();
    let mut i: usize = 0;
    while i < list.len() && i < 4
        invariant
            i <= list.len(),
            i <= 4,
            lines@.len() == i,
            forall|k: int|
                0 <= k < i ==> (#[trigger] lines@[k])@ == if extension {
                    extension_line(name@, origin_version@, pairs_view(list@)[k])
                } else {
                    php_version_line(name@, origin_version@, pairs_view(list@)[k])
                },
        decreases list.len() - i,
    {
        let mut line = String::new();
        push_str(&mut line, name);
        push_str(&mut line, "(");
        push_str(&mut line, origin_version);
        push_str(&mut line, ") -> .. -> ");
        push_str(&mut line, list[i].0.as_str());
        if extension {
            push_str(&mut line, " need ext-");
            push_str(&mut line, list[i].1.as_str());
            push_str(&mut line, ",it is missing from your system. Install or enable PHP's ");
            push_str(&mut line, list[i].1.as_str());
            push_str(&mut line, " extension.");
        } else {
            push_str(&mut line, " need PHP version is ");
            push_str(&mut line, list[i].1.as_str());
        }
        lines.push(line);
        i = i + 1;
    }
    lines
}

impl Composer {
    /// No package is required twice.
    pub open spec fn wf(&self) -> bool {
        match require_view(self.require) {
            Some(e) => crate::autoload::keys_unique(e),
            None => true,
        }
    }

    /// Whether the manifest is well formed, for one this library did not build.
    pub fn is_wf(&self) -> (r: bool)
        ensures
            r == self.wf(),
    {
        let e = self.requirements();
        let r = crate::autoload::distinct_keys(&e);
        assert(r == self.wf()) by {
            if let Some(m) = self.require {
                let es = require_entries(m);
                assert forall|a: int| 0 <= a < e@.len() implies (#[trigger] e@[a]).0@ == es[a].0 by {
                    assert(pairs_view(e@)[a] == es[a]);
                }
                assert(e@.len() == es.len()) by {
                    assert(pairs_view(e@).len() == e@.len());
                }
                if !r {
                    let (a, b) = choose|a: int, b: int|
                        0 <= a < b < e@.len() && (#[trigger] e@[a]).0@ == (#[trigger] e@[b]).0@;
                    assert(es[a].0 == es[b].0);
                } else {
                    assert forall|a: int, b: int| 0 <= a < b < es.len() implies (#[trigger] es[a]).0
                        != (#[trigger] es[b]).0 by {
                        assert(e@[a].0@ != e@[b].0@);
                    }
                }
            } else {
                assert(pairs_view(e@).len() == 0);
            }
        }
        r
    }

    /// The diagnostics for records whose runtime version requirement is unmet.
    pub fn php_version_lines(name: &str, origin_version: &str, list: &Vec<(String, String)>) -> (r: Vec<String>)
        ensures
            r@.len() == shown(list@.len()),
            forall|i: int|
                0 <= i < r@.len() ==> (#[trigger] r@[i])@ == php_version_line(
                    name@,
                    origin_version@,
                    pairs_view(list@)[i],
                ),
    {
        diagnostic_lines(name, origin_version, list, false)
    }

    /// The diagnostics for records whose runtime extension is missing.
    pub fn extension_lines(name: &str, origin_version: &str, list: &Vec<(String, String)>) -> (r: Vec<String>)
        ensures
            r@.len() == shown(list@.len()),
            forall|i: int|
                0 <= i < r@.len() ==> (#[trigger] r@[i])@ == extension_line(
                    name@,
                    origin_version@,
                    pairs_view(list@)[i],
                ),
    {
        diagnostic_lines(name, origin_version, list, true)
    }

    /// Writes the runtime version diagnostics of the root requirement `name`
    /// (given as `origin_version`) and fails where there are any.
    pub fn eprint_php_version<W: ErrWriter>(name: &str, origin_version: &str, list: &Vec<(String, String)>, stderr: &mut W) -> (r: Result<(), ComposerError>)
        ensures
            r is Ok <==> list.len() == 0,
            r is Err ==> r == Err::<(), ComposerError>(ComposerError::PhpVersion),
    {
        let lines = Self::php_version_lines(name, origin_version, list);
        emit(&lines, stderr);
        if list.len() > 0 {
            Err(ComposerError::PhpVersion)
        } else {
            Ok(())
        }
    }

    /// Writes the missing-extension diagnostics of the root requirement `name`
    /// and fails where there are any.
    pub fn eprint_extensions<W: ErrWriter>(name: &str, origin_version: &str, list: &Vec<(String, String)>, stderr: &mut W) -> (r: Result<(), ComposerError>)
        ensures
            r is Ok <==> list.len() == 0,
            r is Err ==> r == Err::<(), ComposerError>(ComposerError::PhpVersion),
    {
        let lines = Self::extension_lines(name, origin_version, list);
        emit(&lines, stderr);
        if list.len() > 0 {
            Err(ComposerError::PhpVersion)
        } else {
            Ok(())
        }
    }

    /// Pins `name` to `version` where the manifest requires it as `*`.
    pub fn set_version(&mut self, name: &str, version: &str)
        requires
            old(self).wf(),
        ensures
            final(self).wf(),
            final(self).repositories == old(self).repositories,
            final(self).autoload == old(self).autoload,
            match require_view(old(self).require) {
                None => final(self).require is None,
                Some(e) => require_view(final(self).require) == Some(
                    if crate::autoload::has_key(e, name@) && e[crate::autoload::index_of_key(
                        e,
                        name@,
                    )].1 == star() {
                        e.update(crate::autoload::index_of_key(e, name@), (name@, version@))
                    } else {
                        e
                    },
                ),
            },
    {
        let name = name.to_owned();
        if let Some(list) = &mut self.require {
            let ghost e = require_entries(*list);
            match require_map_get_index_of(list, &name) {
                None => {},
                Some(i) => {
                    proof {
                        crate::autoload::lemma_unique_index(e, name@, i as int);
                    }
                    let is_star = match require_map_get_index(list, i) {
                        Some((_, v)) => v.clone() == "*".to_owned(),
                        None => false,
                    };
                    if is_star {
                        require_map_insert(list, name, version.to_owned());
                        assert forall|a: int, b: int|
                            0 <= a < b < require_entries(*list).len() implies (#[trigger] require_entries(
                            *list,
                        )[a]).0 != (#[trigger] require_entries(*list)[b]).0 by {
                            assert(e[a].0 != e[b].0);
                        }
                    }
                },
            }
        }
    }

    /// Requires `name` under `version`, `*` where none is given: in its place
    /// where it is already required, last where not.
    pub fn insert(&mut self, name: &str, version: &Option<String>) -> (r: Result<(), ComposerError>)
        requires
            old(self).wf(),
        ensures
            r is Ok,
            final(self).wf(),
            final(self).repositories == old(self).repositories,
            final(self).autoload == old(self).autoload,
            require_view(final(self).require) == Some(
                with_requirement(
                    match require_view(old(self).require) {
                        Some(e) => e,
                        None => Seq::empty(),
                    },
                    name@,
                    match version {
                        Some(v) => v@,
                        None => star(),
                    },
                ),
            ),
    {
        let value = match version {
            Some(v) => v.clone(),
            None => "*".to_owned(),
        };
        let mut list = match self.require.take() {
            Some(list) => list,
            None => require_map_new(),
        };
        let ghost e = require_entries(list);
        let (i, previous) = require_map_insert(&mut list, name.to_owned(), value);
        proof {
            if previous is Some {
                crate::autoload::lemma_unique_index(e, name@, i as int);
            }
            assert forall|a: int, b: int|
                0 <= a < b < require_entries(list).len() implies (#[trigger] require_entries(
                list,
            )[a]).0 != (#[trigger] require_entries(list)[b]).0 by {
                if b < e.len() {
                    assert(e[a].0 != e[b].0);
                }
            }
        }
        self.require = Some(list);
        Ok(())
    }

    /// Drops the requirement of `name`; the last requirement takes its place.
    pub fn only_remove(&mut self, name: &str)
        requires
            old(self).wf(),
        ensures
            final(self).wf(),
            final(self).repositories == old(self).repositories,
            final(self).autoload == old(self).autoload,
            match require_view(old(self).require) {
                None => final(self).require is None,
                Some(e) => require_view(final(self).require) == Some(
                    if crate::autoload::has_key(e, name@) {
                        e.update(crate::autoload::index_of_key(e, name@), e.last()).drop_last()
                    } else {
                        e
                    },
                ),
            },
    {
        let name = name.to_owned();
        if let Some(list) = &mut self.require {
            let ghost e = require_entries(*list);
            match require_map_swap_remove(list, &name) {
                Some((i, _)) => {
                    proof {
                        crate::autoload::lemma_unique_index(e, name@, i as int);
                        let f = e.update(i as int, e.last()).drop_last();
                        assert forall|a: int, b: int| 0 <= a < b < f.len() implies (#[trigger] f[a]).0
                            != (#[trigger] f[b]).0 by {
                            if a == i {
                                assert(e[e.len() - 1].0 != e[b].0);
                            } else if b == i {
                                assert(e[a].0 != e[e.len() - 1].0);
                            } else {
                                assert(e[a].0 != e[b].0);
                            }
                        }
                    }
                },
                None => {},
            }
        }
    }

    /// Sets (or, with `unset`, removes) the registry of this project. Only
    /// `repo.packagist` is known; setting it needs both the type and the URL.
    pub fn set(&mut self, unset: bool, key: &str, value1: &Option<String>, value2: &Option<String>) -> (r: Result<
        (),
        ComposerError,
    >)
        ensures
            key@ == packagist_key() <==> r is Ok,
            r is Err ==> r == Err::<(), ComposerError>(ComposerError::UnknownConfigKey),
            final(self).require == old(self).require,
            final(self).autoload == old(self).autoload,
            r is Ok && unset ==> final(self).repositories is None,
            r is Ok && !unset && value1 is Some && value2 is Some ==> (final(self).repositories matches Some(repo) && repo.packagist._type@ == value1->Some_0@
                && repo.packagist.url@ == value2->Some_0@),
            !(r is Ok && (unset || (value1 is Some && value2 is Some))) ==> final(self).repositories == old(self).repositories,
    {
        if !is_packagist_key(key) {
            return Err(ComposerError::UnknownConfigKey);
        }
        if !unset {
            if let (Some(value1), Some(value2)) = (value1, value2) {
                let repo = self.repositories.take();
                self.repositories = Some(with_repo(repo, value1.as_str(), value2.as_str()));
            }
        } else {
            self.repositories = None;
        }
        Ok(())
    }

    /// The base URL of per-package metadata: the project's registry, else the
    /// global one, else the public registry; then `/p2/`.
    pub fn get_package_url(&self, global: &GlobalConfig) -> (r: Result<String, ComposerError>)
        ensures
            r matches Ok(url) && url@ == match self.repositories {
                Some(repo) => repo.packagist.url@,
                None => match global.repositories {
                    Some(repo) => repo.packagist.url@,
                    None => PACKAGE_URL@,
                },
            } + "/p2/"@,
    {
        let mut url = match &self.repositories {
            Some(repo) => repo.packagist.url.clone(),
            None => match &global.repositories {
                Some(repo) => repo.packagist.url.clone(),
                None => PACKAGE_URL.to_owned(),
            },
        };
        push_str(&mut url, "/p2/");
        Ok(url)
    }

    /// The requirements in the manifest's order.
    pub fn requirements(&self) -> (r: Vec<(String, String)>)
        ensures
            pairs_view(r@) == match require_view(self.require) {
                Some(e) => e,
                None => Seq::empty(),
            },
    {
        let mut r: Vec<(String, String)> = Vec::new();
        if let Some(list) = &self.require {
            let n = require_map_len(list);
            let ghost e = require_entries(*list);
            let mut i: usize = 0;
            while i < n
                invariant
                    n == e.len(),
                    e == require_entries(*list),
                    i <= n,
                    pairs_view(r@) =~= e.take(i as int),
                decreases n - i,
            {
                let ghost before = r@;
                match require_map_get_index(list, i) {
                    Some((k, v)) => {
                        r.push((k.clone(), v.clone()));
                        assert(pairs_view(r@) =~= pairs_view(before).push((k@, v@)));
                        assert(e.take(i + 1) =~= e.take(i as int).push(e[i as int]));
                    },
                    None => {
                        return r;
                    },
                }
                i = i + 1;
                assert(pairs_view(r@) =~= e.take(i as int));
            }
            assert(e.take(i as int) =~= e);
        }
        assert(pairs_view(r@) =~= Seq::<(Seq<char>, Seq<char>)>::empty() || self.require is Some);
        r
    }
}

/// Writes each line to `stderr`.
fn emit<W: ErrWriter>(lines: &Vec<String>, stderr: &mut W) {
    let mut i: usize = 0;
    while i < lines.len()
        invariant
            i <= lines.len(),
        decreases lines.len() - i,
    {
        stderr.write(lines[i].as_str());
        i = i + 1;
    }
}

} // verus!
