//! The class-loader maps: the PSR-4 namespace map and the files map, held in
//! insertion-ordered maps of the `indexmap` crate.
use vstd::prelude::*;

pub mod de;
pub mod round_trip;
pub mod ser;

use crate::digest::{hex_of, sha1_hex, sha1_of};
use crate::json::{pairs_view, Composer};
use crate::package::{locked_name, AutoloadEnum, ComposerLock, PsrValue, Version};
use crate::text::{from_chars, push_chars, push_str, to_chars};

verus! {

/// Declares `indexmap::IndexMap`, the insertion-ordered map that holds the
/// loader maps and the manifest's requirements; its contents are named per use.
#[verifier::external_type_specification]
#[verifier::external_body]
#[verifier::reject_recursive_types(K)]
#[verifier::reject_recursive_types(V)]
#[verifier::reject_recursive_types(S)]
pub struct ExIndexMap<K, V, S>(indexmap::IndexMap<K, V, S>);

/// Whether a path is relative to the vendor directory (else to the project root).
pub type IsVendor = bool;

/// Namespace prefix to directories.
pub type Psr4Map = indexmap::IndexMap<String, Vec<(IsVendor, String)>>;

/// Content key to file.
pub type FilesMap = indexmap::IndexMap<String, (IsVendor, String)>;

pub type Psr4Entries = Seq<(Seq<char>, Seq<(bool, Seq<char>)>)>;

pub type FilesEntries = Seq<(Seq<char>, (bool, Seq<char>))>;

/// The entries of a PSR-4 map, in the map's order.
pub uninterp spec fn psr4_entries(m: indexmap::IndexMap<String, Vec<(bool, String)>>) -> Seq<
    (Seq<char>, Seq<(bool, Seq<char>)>),
>;

/// The entries of a files map, in the map's order.
pub uninterp spec fn files_entries(m: indexmap::IndexMap<String, (bool, String)>) -> Seq<
    (Seq<char>, (bool, Seq<char>)),
>;

pub open spec fn dirs_view(v: Seq<(bool, String)>) -> Seq<(bool, Seq<char>)> {
    v.map_values(|d: (bool, String)| (d.0, d.1@))
}

/// No key occurs twice.
pub open spec fn keys_unique<V>(e: Seq<(Seq<char>, V)>) -> bool {
    forall|i: int, j: int| 0 <= i < j < e.len() ==> (#[trigger] e[i]).0 != (#[trigger] e[j]).0
}

/// Relies on `IndexMap::new`: an empty map.
#[verifier::external_body]
fn psr4_map_new() -> (r: Psr4Map)
    ensures
        psr4_entries(r) == Seq::<(Seq<char>, Seq<(bool, Seq<char>)>)>::empty(),
{
    indexmap::IndexMap::new()
}

/// Relies on `IndexMap::len`.
#[verifier::external_body]
fn psr4_map_len(m: &Psr4Map) -> (r: usize)
    ensures
        r == psr4_entries(*m).len(),
{
    m.len()
}

/// Relies on `IndexMap::get_index`: the entry at index `i` in the map's order.
#[verifier::external_body]
fn psr4_map_get_index(m: &Psr4Map, i: usize) -> (r: Option<(&String, &Vec<(bool, String)>)>)
    ensures
        match r {
            Some((k, v)) => i < psr4_entries(*m).len() && psr4_entries(*m)[i as int] == (
                k@,
                dirs_view(v@),
            ),
            None => i >= psr4_entries(*m).len(),
        },
{
    m.get_index(i)
}

/// Relies on `IndexMap::get_index_of`: where `key` stands in the map's order.
#[verifier::external_body]
fn psr4_map_get_index_of(m: &Psr4Map, key: &String) -> (r: Option<usize>)
    ensures
        match r {
            Some(i) => i < psr4_entries(*m).len() && psr4_entries(*m)[i as int].0 == key@,
            None => forall|i: int|
                0 <= i < psr4_entries(*m).len() ==> (#[trigger] psr4_entries(*m)[i]).0 != key@,
        },
{
    m.get_index_of(key)
}

/// Relies on `IndexMap::insert_full`: an existing key keeps its place and gets
/// the new value; a new key goes last.
#[verifier::external_body]
fn psr4_map_insert(m: &mut Psr4Map, key: String, value: Vec<(bool, String)>) -> (r: (
    usize,
    Option<Vec<(bool, String)>>,
))
    ensures
        match r.1 {
            Some(old_value) => {
                &&& r.0 < psr4_entries(*old(m)).len()
                &&& psr4_entries(*old(m))[r.0 as int] == (key@, dirs_view(old_value@))
                &&& psr4_entries(*final(m)) == psr4_entries(*old(m)).update(
                    r.0 as int,
                    (key@, dirs_view(value@)),
                )
            },
            None => {
                &&& r.0 == psr4_entries(*old(m)).len()
                &&& forall|i: int|
                    0 <= i < psr4_entries(*old(m)).len() ==> (#[trigger] psr4_entries(
                        *old(m),
                    )[i]).0 != key@
                &&& psr4_entries(*final(m)) == psr4_entries(*old(m)).push(
                    (key@, dirs_view(value@)),
                )
            },
        },
{
    m.insert_full(key, value)
}

/// Relies on `IndexMap::new`: an empty map.
#[verifier::external_body]
fn files_map_new() -> (r: FilesMap)
    ensures
        files_entries(r) == Seq::<(Seq<char>, (bool, Seq<char>))>::empty(),
{
    indexmap::IndexMap::new()
}

/// Relies on `IndexMap::len`.
#[verifier::external_body]
fn files_map_len(m: &FilesMap) -> (r: usize)
    ensures
        r == files_entries(*m).len(),
{
    m.len()
}

/// Relies on `IndexMap::get_index`: the entry at index `i` in the map's order.
#[verifier::external_body]
fn files_map_get_index(m: &FilesMap, i: usize) -> (r: Option<(&String, &(bool, String))>)
    ensures
        match r {
            Some((k, v)) => i < files_entries(*m).len() && files_entries(*m)[i as int] == (
                k@,
                (v.0, v.1@),
            ),
            None => i >= files_entries(*m).len(),
        },
{
    m.get_index(i)
}

/// Relies on `IndexMap::insert_full`: an existing key keeps its place and gets
/// the new value; a new key goes last.
#[verifier::external_body]
fn files_map_insert(m: &mut FilesMap, key: String, value: (bool, String)) -> (r: (
    usize,
    Option<(bool, String)>,
))
    ensures
        match r.1 {
            Some(old_value) => {
                &&& r.0 < files_entries(*old(m)).len()
                &&& files_entries(*old(m))[r.0 as int] == (key@, (old_value.0, old_value.1@))
                &&& files_entries(*final(m)) == files_entries(*old(m)).update(
                    r.0 as int,
                    (key@, (value.0, value.1@)),
                )
            },
            None => {
                &&& r.0 == files_entries(*old(m)).len()
                &&& forall|i: int|
                    0 <= i < files_entries(*old(m)).len() ==> (#[trigger] files_entries(
                        *old(m),
                    )[i]).0 != key@
                &&& files_entries(*final(m)) == files_entries(*old(m)).push(
                    (key@, (value.0, value.1@)),
                )
            },
        },
{
    m.insert_full(key, value)
}

/// Whether some entry of `e` has the key `key`.
pub open spec fn has_key<V>(e: Seq<(Seq<char>, V)>, key: Seq<char>) -> bool {
    exists|i: int| 0 <= i < e.len() && (#[trigger] e[i]).0 == key
}

/// The index of the entry with key `key`.
pub open spec fn index_of_key<V>(e: Seq<(Seq<char>, V)>, key: Seq<char>) -> int {
    choose|i: int| 0 <= i < e.len() && (#[trigger] e[i]).0 == key
}

/// `e` with `d` added to the directories of `key` (a new entry where `key` is
/// absent); where `dedup` holds, a directory already listed is not added again.
pub open spec fn with_dir(e: Psr4Entries, key: Seq<char>, d: (bool, Seq<char>), dedup: bool) -> Psr4Entries {
    if has_key(e, key) {
        let i = index_of_key(e, key);
        if dedup && e[i].1.contains(d) {
            e
        } else {
            e.update(i, (key, e[i].1.push(d)))
        }
    } else {
        e.push((key, seq![d]))
    }
}

/// `e` with `key` bound to `v`: in its place where it is present, last where not.
pub open spec fn with_file(e: FilesEntries, key: Seq<char>, v: (bool, Seq<char>)) -> FilesEntries {
    if has_key(e, key) {
        e.update(index_of_key(e, key), (key, v))
    } else {
        e.push((key, v))
    }
}

pub proof fn lemma_unique_index<V>(e: Seq<(Seq<char>, V)>, key: Seq<char>, i: int)
    requires
        keys_unique(e),
        0 <= i < e.len(),
        e[i].0 == key,
    ensures
        has_key(e, key),
        index_of_key(e, key) == i,
{
    assert(has_key(e, key));
    let j = index_of_key(e, key);
    if j != i {
        if j < i {
            assert(e[j].0 != e[i].0);
        } else {
            assert(e[i].0 != e[j].0);
        }
    }
}

pub(crate) fn clone_dirs(v: &Vec<(bool, String)>) -> (r: Vec<(bool, String)>)
    ensures
        dirs_view(r@) == dirs_view(v@),
{
    let mut r: Vec<(bool, String)> = Vec::new();
    let mut i: usize = 0;
    while i < v.len()
        invariant
            i <= v.len(),
            dirs_view(r@) =~= dirs_view(v@.take(i as int)),
        decreases v.len() - i,
    {
        r.push((v[i].0, v[i].1.clone()));
        i = i + 1;
        assert(dirs_view(v@.take(i as int)) =~= dirs_view(v@.take(i - 1)).push((v@[i - 1].0, v@[i
            - 1].1@)));
    }
    assert(v@.take(i as int) =~= v@);
    r
}

fn dirs_contain(v: &Vec<(bool, String)>, d: &(bool, String)) -> (r: bool)
    ensures
        r == dirs_view(v@).contains((d.0, d.1@)),
{
    let mut i: usize = 0;
    while i < v.len()
        invariant
            i <= v.len(),
            forall|k: int| 0 <= k < i ==> dirs_view(v@)[k] != (d.0, d.1@),
        decreases v.len() - i,
    {
        if v[i].0 == d.0 && v[i].1 == d.1 {
            assert(dirs_view(v@)[i as int] == (d.0, d.1@));
            return true;
        }
        i = i + 1;
    }
    false
}

/// Whether no key occurs twice among `entries`.
pub fn distinct_keys<V>(entries: &Vec<(String, V)>) -> (r: bool)
    ensures
        r == (forall|i: int, j: int|
            0 <= i < j < entries@.len() ==> (#[trigger] entries@[i]).0@ != (#[trigger] entries@[j]).0@),
{
    let mut j: usize = 0;
    while j < entries.len()
        invariant
            j <= entries.len(),
            forall|a: int, b: int|
                0 <= a < b < j ==> (#[trigger] entries@[a]).0@ != (#[trigger] entries@[b]).0@,
        decreases entries.len() - j,
    {
        let mut i: usize = 0;
        while i < j
            invariant
                i <= j < entries.len(),
                forall|a: int, b: int|
                    0 <= a < b < j ==> (#[trigger] entries@[a]).0@ != (#[trigger] entries@[b]).0@,
                forall|a: int| 0 <= a < i ==> (#[trigger] entries@[a]).0@ != entries@[j as int].0@,
            decreases j - i,
        {
            if entries[i].0 == entries[j].0 {
                return false;
            }
            i = i + 1;
        }
        j = j + 1;
    }
    true
}

/// The PSR-4 namespace map: each prefix (ending in `\`) with its directories.
pub struct Psr4Data {
    pub data: Psr4Map,
}

impl View for Psr4Data {
    type V = Psr4Entries;

    open spec fn view(&self) -> Psr4Entries {
        psr4_entries(self.data)
    }
}

impl Psr4Data {
    pub open spec fn wf(&self) -> bool {
        keys_unique(self@)
    }

    /// An empty map.
    pub fn empty() -> (r: Self)
        ensures
            r.wf(),
            r@.len() == 0,
    {
        Psr4Data { data: psr4_map_new() }
    }

    /// Whether the map is well formed, for a map this library did not build.
    pub fn is_wf(&self) -> (r: bool)
        ensures
            r == self.wf(),
    {
        let e = self.entries();
        let r = distinct_keys(&e);
        assert(r == self.wf()) by {
            if !r {
                let (a, b) = choose|a: int, b: int|
                    0 <= a < b < e@.len() && (#[trigger] e@[a]).0@ == (#[trigger] e@[b]).0@;
                assert(self@[a].0 == self@[b].0);
            } else {
                assert forall|a: int, b: int| 0 <= a < b < self@.len() implies (#[trigger] self@[a]).0
                    != (#[trigger] self@[b]).0 by {
                    assert(e@[a].0@ != e@[b].0@);
                }
            }
        }
        r
    }

    /// Adds `dir` to the directories of `key`; where `dedup` holds, a directory
    /// already listed there is not added again.
    pub fn push_dir(&mut self, key: &String, dir: (bool, String), dedup: bool)
        requires
            old(self).wf(),
        ensures
            final(self).wf(),
            final(self)@ == with_dir(old(self)@, key@, (dir.0, dir.1@), dedup),
    {
        let ghost d = (dir.0, dir.1@);
        match psr4_map_get_index_of(&self.data, key) {
            Some(i) => {
                proof {
                    lemma_unique_index(self@, key@, i as int);
                }
                let current = match psr4_map_get_index(&self.data, i) {
                    Some((_, v)) => v,
                    None => {
                        return;
                    },
                };
                if dedup && dirs_contain(current, &dir) {
                    return;
                }
                let mut next = clone_dirs(current);
                let ghost before = next@;
                next.push(dir);
                assert(dirs_view(next@) =~= dirs_view(before).push(d));
                let ghost e = self@;
                psr4_map_insert(&mut self.data, key.clone(), next);
                assert forall|a: int, b: int| 0 <= a < b < self@.len() implies (#[trigger] self@[a]).0
                    != (#[trigger] self@[b]).0 by {
                    assert(e[a].0 != e[b].0);
                }
            },
            None => {
                let ghost e = self@;
                let mut next: Vec<(bool, String)> = Vec::new();
                next.push(dir);
                assert(dirs_view(next@) =~= seq![d]);
                psr4_map_insert(&mut self.data, key.clone(), next);
                assert forall|a: int, b: int| 0 <= a < b < self@.len() implies (#[trigger] self@[a]).0
                    != (#[trigger] self@[b]).0 by {
                    if b < e.len() {
                        assert(e[a].0 != e[b].0);
                    }
                }
            },
        }
    }

    /// The entries, in the map's order.
    pub fn entries(&self) -> (r: Vec<(String, Vec<(bool, String)>)>)
        ensures
            r@.len() == self@.len(),
            forall|i: int|
                0 <= i < r@.len() ==> (#[trigger] r@[i]).0@ == self@[i].0 && dirs_view(r@[i].1@)
                    == self@[i].1,
    {
        let n = psr4_map_len(&self.data);
        let mut r: Vec<(String, Vec<(bool, String)>)> = Vec::new();
        let mut i: usize = 0;
        while i < n
            invariant
                n == self@.len(),
                i <= n,
                r@.len() == i,
                forall|k: int|
                    0 <= k < i ==> (#[trigger] r@[k]).0@ == self@[k].0 && dirs_view(r@[k].1@)
                        == self@[k].1,
            decreases n - i,
        {
            match psr4_map_get_index(&self.data, i) {
                Some((k, v)) => {
                    r.push((k.clone(), clone_dirs(v)));
                },
                None => {
                    return r;
                },
            }
            i = i + 1;
        }
        r
    }
}

/// The files map: each file to include, keyed by the hex SHA-1 of its path.
pub struct FilesData {
    pub data: FilesMap,
}

impl View for FilesData {
    type V = FilesEntries;

    open spec fn view(&self) -> FilesEntries {
        files_entries(self.data)
    }
}

impl FilesData {
    pub open spec fn wf(&self) -> bool {
        keys_unique(self@)
    }

    /// An empty map.
    pub fn empty() -> (r: Self)
        ensures
            r.wf(),
            r@.len() == 0,
    {
        FilesData { data: files_map_new() }
    }

    /// Whether the map is well formed, for a map this library did not build.
    pub fn is_wf(&self) -> (r: bool)
        ensures
            r == self.wf(),
    {
        let e = self.entries();
        let r = distinct_keys(&e);
        assert(r == self.wf()) by {
            if !r {
                let (a, b) = choose|a: int, b: int|
                    0 <= a < b < e@.len() && (#[trigger] e@[a]).0@ == (#[trigger] e@[b]).0@;
                assert(self@[a].0 == self@[b].0);
            } else {
                assert forall|a: int, b: int| 0 <= a < b < self@.len() implies (#[trigger] self@[a]).0
                    != (#[trigger] self@[b]).0 by {
                    assert(e@[a].0@ != e@[b].0@);
                }
            }
        }
        r
    }

    /// Binds `key` to `value`, keeping the key's place where it is present;
    /// returns the value it replaced.
    pub fn put(&mut self, key: String, value: (bool, String)) -> (r: Option<(bool, String)>)
        requires
            old(self).wf(),
        ensures
            final(self).wf(),
            final(self)@ == with_file(old(self)@, key@, (value.0, value.1@)),
            match r {
                Some(v) => has_key(old(self)@, key@) && old(self)@[index_of_key(
                    old(self)@,
                    key@,
                )].1 == (v.0, v.1@),
                None => !has_key(old(self)@, key@),
            },
    {
        let ghost e = self@;
        let ghost k = key@;
        let (i, previous) = files_map_insert(&mut self.data, key, value);
        proof {
            if previous is Some {
                lemma_unique_index(e, k, i as int);
            }
        }
        assert forall|a: int, b: int| 0 <= a < b < self@.len() implies (#[trigger] self@[a]).0 != (
        #[trigger] self@[b]).0 by {
            if b < e.len() {
                assert(e[a].0 != e[b].0);
            }
        }
        previous
    }

    /// The entries, in the map's order.
    pub fn entries(&self) -> (r: Vec<(String, (bool, String))>)
        ensures
            r@.len() == self@.len(),
            forall|i: int|
                0 <= i < r@.len() ==> (#[trigger] r@[i]).0@ == self@[i].0 && (r@[i].1.0, r@[i].1.1@)
                    == self@[i].1,
    {
        let n = files_map_len(&self.data);
        let mut r: Vec<(String, (bool, String))> = Vec::new();
        let mut i: usize = 0;
        while i < n
            invariant
                n == self@.len(),
                i <= n,
                r@.len() == i,
                forall|k: int|
                    0 <= k < i ==> (#[trigger] r@[k]).0@ == self@[k].0 && (r@[k].1.0, r@[k].1.1@)
                        == self@[k].1,
            decreases n - i,
        {
            match files_map_get_index(&self.data, i) {
                Some((k, v)) => {
                    r.push((k.clone(), (v.0, v.1.clone())));
                },
                None => {
                    return r;
                },
            }
            i = i + 1;
        }
        r
    }
}


// ---------------------------------------------------------------------------
// Merging the manifest's and the locked packages' autoload sections
// ---------------------------------------------------------------------------

/// `s` without its trailing `/` characters.
pub open spec fn trim_slashes(s: Seq<char>) -> Seq<char>
    decreases s.len(),
{
    if s.len() > 0 && s.last() == '/' {
        trim_slashes(s.drop_last())
    } else {
        s
    }
}

/// The PSR-4 entries as (prefix, directory) pairs, a list value giving one
/// pair per directory.
pub open spec fn string_values(list: Seq<(String, PsrValue)>) -> Seq<(Seq<char>, Seq<char>)>
    decreases list.len(),
{
    if list.len() == 0 {
        Seq::empty()
    } else {
        string_values(list.drop_last()) + value_pairs(list.last().0@, list.last().1)
    }
}

/// The (prefix, directory) pairs of one PSR-4 entry: its one directory, or
/// each directory of its list in order.
pub open spec fn value_pairs(k: Seq<char>, v: PsrValue) -> Seq<(Seq<char>, Seq<char>)> {
    match v {
        PsrValue::String(d) => seq![(k, d@)],
        PsrValue::Array(ds) => ds@.map_values(|d: String| (k, d@)),
    }
}

/// The (prefix, directory) pairs of an autoload section's PSR-4 entries.
pub open spec fn psr4_values(a: Option<AutoloadEnum>) -> Seq<(Seq<char>, Seq<char>)> {
    match a {
        Some(AutoloadEnum::Psr(auto)) => match auto.psr4 {
            Some(list) => string_values(list@),
            None => Seq::empty(),
        },
        _ => Seq::empty(),
    }
}

/// The files of an autoload section.
pub open spec fn file_values(a: Option<AutoloadEnum>) -> Seq<Seq<char>> {
    match a {
        Some(AutoloadEnum::Psr(auto)) => match auto.files {
            Some(list) => list@.map_values(|f: String| f@),
            None => Seq::empty(),
        },
        _ => Seq::empty(),
    }
}

/// A locked package's directory, below the vendor directory.
pub open spec fn vendor_path(name: Seq<char>, value: Seq<char>) -> Seq<char> {
    "/"@ + name + (if trim_slashes(value).len() > 0 {
        "/"@
    } else {
        Seq::empty()
    }) + trim_slashes(value)
}

/// The (prefix, directory) pairs that one locked package contributes.
pub open spec fn package_pairs(p: Version) -> Seq<(Seq<char>, Seq<char>)> {
    psr4_values(p.autoload).map_values(
        |kv: (Seq<char>, Seq<char>)| (kv.0, vendor_path(locked_name(p), kv.1)),
    )
}

/// The (prefix, directory) pairs of the locked packages, in lock order.
pub open spec fn lock_pairs(ps: Seq<Version>) -> Seq<(Seq<char>, Seq<char>)>
    decreases ps.len(),
{
    if ps.len() == 0 {
        Seq::empty()
    } else {
        lock_pairs(ps.drop_last()) + package_pairs(ps.last())
    }
}

/// The (prefix, directory) pairs of the manifest, below the project root.
pub open spec fn manifest_pairs(a: Option<AutoloadEnum>) -> Seq<(Seq<char>, Seq<char>)> {
    psr4_values(a).map_values(|kv: (Seq<char>, Seq<char>)| (kv.0, "/"@ + trim_slashes(kv.1)))
}

/// `e` with each pair's directory added under its prefix, skipping
/// directories already listed there.
pub open spec fn add_dirs(e: Psr4Entries, pairs: Seq<(Seq<char>, Seq<char>)>, is_vendor: bool) -> Psr4Entries
    decreases pairs.len(),
{
    if pairs.len() == 0 {
        e
    } else {
        with_dir(
            add_dirs(e, pairs.drop_last(), is_vendor),
            pairs.last().0,
            (is_vendor, pairs.last().1),
            true,
        )
    }
}

/// The key of a file in the files map.
pub open spec fn file_key(path: Seq<char>) -> Seq<char> {
    hex_of(sha1_of(vstd::utf8::encode_utf8(path)))
}

/// `e` with each path bound under its key.
pub open spec fn add_files(e: FilesEntries, paths: Seq<Seq<char>>, is_vendor: bool) -> FilesEntries
    decreases paths.len(),
{
    if paths.len() == 0 {
        e
    } else {
        with_file(
            add_files(e, paths.drop_last(), is_vendor),
            file_key(paths.last()),
            (is_vendor, paths.last()),
        )
    }
}

/// The files of one locked package, below the vendor directory.
pub open spec fn package_files(p: Version) -> Seq<Seq<char>> {
    file_values(p.autoload).map_values(|f: Seq<char>| "/"@ + locked_name(p) + "/"@ + f)
}

/// The files of the locked packages, in lock order.
pub open spec fn lock_files(ps: Seq<Version>) -> Seq<Seq<char>>
    decreases ps.len(),
{
    if ps.len() == 0 {
        Seq::empty()
    } else {
        lock_files(ps.drop_last()) + package_files(ps.last())
    }
}

/// The files of the manifest, below the project root.
pub open spec fn manifest_files(a: Option<AutoloadEnum>) -> Seq<Seq<char>> {
    file_values(a).map_values(|f: Seq<char>| "/"@ + f)
}

fn trim_slashes_exec(s: &String) -> (r: Vec<char>)
    ensures
        r@ == trim_slashes(s@),
{
    let mut c = to_chars(s.as_str());
    while c.len() > 0 && c[c.len() - 1] == '/'
        invariant
            trim_slashes(c@) == trim_slashes(s@),
        decreases c.len(),
    {
        c.pop();
    }
    c
}

fn autoload_psr4_values(a: &Option<AutoloadEnum>) -> (r: Vec<(String, String)>)
    ensures
        pairs_view(r@) == psr4_values(*a),
{
    let mut r: Vec<(String, String)> = Vec::new();
    if let Some(AutoloadEnum::Psr(auto)) = a {
        if let Some(list) = &auto.psr4 {
            let mut i: usize = 0;
            assert(list@.take(0) =~= Seq::<(String, PsrValue)>::empty());
            while i < list.len()
                invariant
                    i <= list.len(),
                    pairs_view(r@) == string_values(list@.take(i as int)),
                decreases list.len() - i,
            {
                let ghost before = r@;
                assert(list@.take(i + 1).drop_last() =~= list@.take(i as int));
                assert(list@.take(i + 1).last() == list@[i as int]);
                match &list[i].1 {
                    PsrValue::String(v) => {
                        r.push((list[i].0.clone(), v.clone()));
                        assert(pairs_view(r@) =~= pairs_view(before) + value_pairs(
                            list@[i as int].0@,
                            list@[i as int].1,
                        ));
                    },
                    PsrValue::Array(ds) => {
                        let mut j: usize = 0;
                        while j < ds.len()
                            invariant
                                i < list.len(),
                                list[i as int].1 == PsrValue::Array(*ds),
                                j <= ds.len(),
                                r@.len() == before.len() + j,
                                forall|m: int| 0 <= m < before.len() ==> #[trigger] r@[m] == before[m],
                                forall|m: int|
                                    0 <= m < j ==> (#[trigger] r@[before.len() + m]).0@
                                        == list@[i as int].0@ && r@[before.len() + m].1@ == ds@[m]@,
                            decreases ds.len() - j,
                        {
                            r.push((list[i].0.clone(), ds[j].clone()));
                            j = j + 1;
                        }
                        let ghost whole = pairs_view(before) + value_pairs(
                            list@[i as int].0@,
                            list@[i as int].1,
                        );
                        assert forall|x: int| 0 <= x < r@.len() implies pairs_view(r@)[x]
                            == whole[x] by {
                            if x >= before.len() {
                                let m = x - before.len();
                                assert(r@[before.len() + m] == r@[x]);
                            }
                        }
                        assert(pairs_view(r@) =~= whole);
                    },
                }
                i = i + 1;
            }
            assert(list@.take(i as int) =~= list@);
        }
    }
    assert(pairs_view(r@) =~= psr4_values(*a));
    r
}

fn autoload_files(a: &Option<AutoloadEnum>) -> (r: Vec<String>)
    ensures
        r@.map_values(|f: String| f@) == file_values(*a),
{
    let mut r: Vec<String> = Vec::new();
    if let Some(AutoloadEnum::Psr(auto)) = a {
        if let Some(list) = &auto.files {
            let mut i: usize = 0;
            while i < list.len()
                invariant
                    i <= list.len(),
                    r@.len() == i,
                    forall|k: int| 0 <= k < i ==> (#[trigger] r@[k])@ == list@[k]@,
                decreases list.len() - i,
            {
                r.push(list[i].clone());
                i = i + 1;
            }
        }
    }
    assert(r@.map_values(|f: String| f@) =~= file_values(*a));
    r
}

fn name_string(p: &Version) -> (r: String)
    ensures
        r@ == locked_name(*p),
{
    match &p.name {
        Some(n) => n.clone(),
        None => String::new(),
    }
}

impl Psr4Data {
    /// The map read back from an existing `autoload_psr4.php`, or an empty one
    /// where there is none.
    pub fn new(content: Option<&str>) -> (r: Self)
        ensures
            r.wf(),
            r@ == Self::new_view(text_view(content)),
    {
        match content {
            Some(text) => Self::parse(text),
            None => {
                let r = Self::empty();
                assert(r@ =~= Seq::<(Seq<char>, Seq<(bool, Seq<char>)>)>::empty());
                r
            },
        }
    }

    fn add_pairs(&mut self, pairs: &Vec<(String, String)>, is_vendor: bool)
        requires
            old(self).wf(),
        ensures
            final(self).wf(),
            final(self)@ == add_dirs(old(self)@, pairs_view(pairs@), is_vendor),
    {
        let ghost start = self@;
        let ghost ps = pairs_view(pairs@);
        let mut i: usize = 0;
        assert(ps.take(0) =~= Seq::<(Seq<char>, Seq<char>)>::empty());
        while i < pairs.len()
            invariant
                i <= pairs.len(),
                ps == pairs_view(pairs@),
                self.wf(),
                self@ == add_dirs(start, ps.take(i as int), is_vendor),
            decreases pairs.len() - i,
        {
            self.push_dir(&pairs[i].0, (is_vendor, pairs[i].1.clone()), true);
            assert(ps.take(i + 1).drop_last() =~= ps.take(i as int));
            assert(ps.take(i + 1).last() == ps[i as int]);
            i = i + 1;
        }
        assert(ps.take(i as int) =~= ps);
    }

    /// Adds the manifest's own PSR-4 directories, relative to the project root.
    pub fn append_json(&mut self, json: &Composer)
        requires
            old(self).wf(),
        ensures
            final(self).wf(),
            final(self)@ == add_dirs(old(self)@, manifest_pairs(json.autoload), false),
    {
        let values = autoload_psr4_values(&json.autoload);
        let mut pairs: Vec<(String, String)> = Vec::new();
        let mut i: usize = 0;
        while i < values.len()
            invariant
                i <= values.len(),
                pairs@.len() == i,
                forall|k: int|
                    0 <= k < i ==> (#[trigger] pairs@[k]).0@ == values@[k].0@ && pairs@[k].1@ == "/"@
                        + trim_slashes(values@[k].1@),
            decreases values.len() - i,
        {
            let mut v = String::new();
            push_str(&mut v, "/");
            push_chars(&mut v, &trim_slashes_exec(&values[i].1));
            pairs.push((values[i].0.clone(), v));
            i = i + 1;
        }
        assert(pairs_view(pairs@) =~= pairs_view(values@).map_values(
            |kv: (Seq<char>, Seq<char>)| (kv.0, "/"@ + trim_slashes(kv.1)),
        ));
        self.add_pairs(&pairs, false);
    }

    /// Adds the PSR-4 directories of each locked package, relative to the
    /// vendor directory.
    pub fn append_lock(&mut self, lock: &ComposerLock)
        requires
            old(self).wf(),
        ensures
            final(self).wf(),
            final(self)@ == add_dirs(old(self)@, lock_pairs(lock.packages@), true),
    {
        let ghost ps = lock.packages@;
        let mut pairs: Vec<(String, String)> = Vec::new();
        let mut i: usize = 0;
        assert(ps.take(0) =~= Seq::<Version>::empty());
        while i < lock.packages.len()
            invariant
                i <= lock.packages.len(),
                ps == lock.packages@,
                pairs_view(pairs@) == lock_pairs(ps.take(i as int)),
            decreases lock.packages.len() - i,
        {
            let item = &lock.packages[i];
            let name = name_string(item);
            let values = autoload_psr4_values(&item.autoload);
            let ghost before = pairs@;
            let mut j: usize = 0;
            while j < values.len()
                invariant
                    j <= values.len(),
                    name@ == locked_name(*item),
                    pairs@.len() == before.len() + j,
                    forall|k: int| 0 <= k < before.len() ==> #[trigger] pairs@[k] == before[k],
                    forall|k: int|
                        0 <= k < j ==> (#[trigger] pairs@[before.len() + k]).0@ == values@[k].0@
                            && pairs@[before.len() + k].1@ == vendor_path(
                            locked_name(*item),
                            values@[k].1@,
                        ),
                decreases values.len() - j,
            {
                let trimmed = trim_slashes_exec(&values[j].1);
                let mut v = String::new();
                push_str(&mut v, "/");
                push_str(&mut v, name.as_str());
                if trimmed.len() > 0 {
                    push_str(&mut v, "/");
                }
                push_chars(&mut v, &trimmed);
                assert(v@ =~= vendor_path(locked_name(*item), values@[j as int].1@));
                pairs.push((values[j].0.clone(), v));
                j = j + 1;
            }
            assert(pairs_view(values@) == psr4_values(item.autoload));
            assert forall|k: int| 0 <= k < package_pairs(*item).len() implies #[trigger] package_pairs(
                *item,
            )[k] == (values@[k].0@, vendor_path(locked_name(*item), values@[k].1@)) by {
                assert(pairs_view(values@)[k] == (values@[k].0@, values@[k].1@));
            }
            let ghost whole = pairs_view(before) + package_pairs(*item);
            assert(package_pairs(*item).len() == values@.len());
            assert forall|x: int| 0 <= x < pairs@.len() implies pairs_view(pairs@)[x] == whole[x] by {
                if x >= before.len() {
                    let k = x - before.len();
                    assert(pairs@[before.len() + k] == pairs@[x]);
                }
            }
            assert(pairs_view(pairs@) =~= whole);
            assert(ps.take(i + 1).drop_last() =~= ps.take(i as int));
            assert(ps.take(i + 1).last() == ps[i as int]);
            i = i + 1;
        }
        assert(ps.take(i as int) =~= ps);
        self.add_pairs(&pairs, true);
    }
}

impl FilesData {
    /// The map read back from an existing `autoload_files.php`, or an empty one
    /// where there is none.
    pub fn new(content: Option<&str>) -> (r: Self)
        ensures
            r.wf(),
            r@ == Self::new_view(text_view(content)),
    {
        match content {
            Some(text) => Self::parse(text),
            None => {
                let r = Self::empty();
                assert(r@ =~= Seq::<(Seq<char>, (bool, Seq<char>))>::empty());
                r
            },
        }
    }

    /// Binds `value` under the hex SHA-1 of its text; returns what that key held.
    pub fn insert(&mut self, is_vendor: IsVendor, value: String) -> (r: Option<(IsVendor, String)>)
        requires
            old(self).wf(),
        ensures
            final(self).wf(),
            final(self)@ == with_file(old(self)@, file_key(value@), (is_vendor, value@)),
            match r {
                Some(v) => has_key(old(self)@, file_key(value@)) && old(self)@[index_of_key(
                    old(self)@,
                    file_key(value@),
                )].1 == (v.0, v.1@),
                None => !has_key(old(self)@, file_key(value@)),
            },
    {
        let key = sha1_hex(value.as_str());
        self.put(key, (is_vendor, value))
    }

    fn add_paths(&mut self, paths: &Vec<String>, is_vendor: bool)
        requires
            old(self).wf(),
        ensures
            final(self).wf(),
            final(self)@ == add_files(old(self)@, paths@.map_values(|f: String| f@), is_vendor),
    {
        let ghost start = self@;
        let ghost ps = paths@.map_values(|f: String| f@);
        let mut i: usize = 0;
        assert(ps.take(0) =~= Seq::<Seq<char>>::empty());
        while i < paths.len()
            invariant
                i <= paths.len(),
                ps == paths@.map_values(|f: String| f@),
                self.wf(),
                self@ == add_files(start, ps.take(i as int), is_vendor),
            decreases paths.len() - i,
        {
            self.insert(is_vendor, paths[i].clone());
            assert(ps.take(i + 1).drop_last() =~= ps.take(i as int));
            assert(ps.take(i + 1).last() == ps[i as int]);
            i = i + 1;
        }
        assert(ps.take(i as int) =~= ps);
    }

    /// Adds the manifest's own files, relative to the project root.
    pub fn append_json(&mut self, json: &Composer)
        requires
            old(self).wf(),
        ensures
            final(self).wf(),
            final(self)@ == add_files(old(self)@, manifest_files(json.autoload), false),
    {
        let files = autoload_files(&json.autoload);
        let mut paths: Vec<String> = Vec::new();
        let mut i: usize = 0;
        while i < files.len()
            invariant
                i <= files.len(),
                paths@.len() == i,
                forall|k: int| 0 <= k < i ==> (#[trigger] paths@[k])@ == "/"@ + files@[k]@,
            decreases files.len() - i,
        {
            let mut v = String::new();
            push_str(&mut v, "/");
            push_str(&mut v, files[i].as_str());
            paths.push(v);
            i = i + 1;
        }
        assert(paths@.map_values(|f: String| f@) =~= files@.map_values(|f: String| f@).map_values(
            |f: Seq<char>| "/"@ + f,
        ));
        self.add_paths(&paths, false);
    }

    /// Adds the files of each locked package, relative to the vendor directory.
    pub fn append_lock(&mut self, lock: &ComposerLock)
        requires
            old(self).wf(),
        ensures
            final(self).wf(),
            final(self)@ == add_files(old(self)@, lock_files(lock.packages@), true),
    {
        let ghost ps = lock.packages@;
        let mut paths: Vec<String> = Vec::new();
        let mut i: usize = 0;
        assert(ps.take(0) =~= Seq::<Version>::empty());
        assert(paths@.map_values(|f: String| f@) =~= Seq::<Seq<char>>::empty());
        while i < lock.packages.len()
            invariant
                i <= lock.packages.len(),
                ps == lock.packages@,
                paths@.map_values(|f: String| f@) == lock_files(ps.take(i as int)),
            decreases lock.packages.len() - i,
        {
            let item = &lock.packages[i];
            let name = name_string(item);
            let files = autoload_files(&item.autoload);
            let ghost before = paths@;
            let mut j: usize = 0;
            while j < files.len()
                invariant
                    j <= files.len(),
                    name@ == locked_name(*item),
                    paths@.len() == before.len() + j,
                    forall|k: int| 0 <= k < before.len() ==> #[trigger] paths@[k] == before[k],
                    forall|k: int|
                        0 <= k < j ==> (#[trigger] paths@[before.len() + k])@ == "/"@ + locked_name(
                            *item,
                        ) + "/"@ + files@[k]@,
                decreases files.len() - j,
            {
                let mut v = String::new();
                push_str(&mut v, "/");
                push_str(&mut v, name.as_str());
                push_str(&mut v, "/");
                push_str(&mut v, files[j].as_str());
                paths.push(v);
                j = j + 1;
            }
            assert(files@.map_values(|f: String| f@) == file_values(item.autoload));
            assert forall|k: int| 0 <= k < package_files(*item).len() implies #[trigger] package_files(
                *item,
            )[k] == "/"@ + locked_name(*item) + "/"@ + files@[k]@ by {
                assert(files@.map_values(|f: String| f@)[k] == files@[k]@);
            }
            let ghost whole = before.map_values(|f: String| f@) + package_files(*item);
            assert(package_files(*item).len() == files@.len());
            assert forall|x: int| 0 <= x < paths@.len() implies paths@.map_values(|f: String| f@)[x]
                == whole[x] by {
                if x >= before.len() {
                    let k = x - before.len();
                    assert(paths@[before.len() + k] == paths@[x]);
                }
            }
            assert(paths@.map_values(|f: String| f@) =~= whole);
            assert(ps.take(i + 1).drop_last() =~= ps.take(i as int));
            assert(ps.take(i + 1).last() == ps[i as int]);
            i = i + 1;
        }
        assert(ps.take(i as int) =~= ps);
        self.add_paths(&paths, true);
    }
}

/// The text of an optional file.
pub open spec fn text_view(content: Option<&str>) -> Option<Seq<char>> {
    match content {
        Some(t) => Some(t@),
        None => None,
    }
}

/// The three generated sections of the static map.
pub struct StaticData {
    pub files: String,
    pub psr4_length: String,
    pub psr4_dir: String,
}

impl StaticData {
    pub fn from(files: &FilesData, psr4: &Psr4Data) -> (r: Self)
        requires
            psr4.wf(),
        ensures
            r.files@ == ser::static_files(files@),
            r.psr4_length@ == ser::static_psr4_lengths(psr4@),
            r.psr4_dir@ == ser::static_psr4_dirs(psr4@),
    {
        let files = files.to_static();
        let (psr4_length, psr4_dir) = psr4.to_static();
        StaticData { files, psr4_length, psr4_dir }
    }

    /// `template` with each of the three marks replaced by its section.
    pub fn fill(&self, template: &str, files_mark: &str, length_mark: &str, dir_mark: &str) -> (r: String)
        requires
            files_mark@.len() > 0,
            length_mark@.len() > 0,
            dir_mark@.len() > 0,
        ensures
            r@ == crate::text::replace_all(
                crate::text::replace_all(
                    crate::text::replace_all(template@, files_mark@, self.files@),
                    length_mark@,
                    self.psr4_length@,
                ),
                dir_mark@,
                self.psr4_dir@,
            ),
    {
        let t = crate::text::replace_exec(&to_chars(template), &to_chars(files_mark), &to_chars(self.files.as_str()));
        let t = crate::text::replace_exec(&t, &to_chars(length_mark), &to_chars(self.psr4_length.as_str()));
        let t = crate::text::replace_exec(&t, &to_chars(dir_mark), &to_chars(self.psr4_dir.as_str()));
        from_chars(&t)
    }
}

impl ComposerLock {
    /// The text of `autoload_psr4.php`: the map read back from `existing`
    /// (the current file, if any) with the locked packages' directories added.
    pub fn write_psr4(&self, existing: Option<&str>) -> (r: String)
        ensures
            r@ == ser::psr4_file(add_dirs(Psr4Data::new_view(text_view(existing)), lock_pairs(self.packages@), true)),
    {
        let mut data = Psr4Data::new(existing);
        data.append_lock(self);
        data.render()
    }

    /// The text of `autoload_files.php`: the map read back from `existing`
    /// with the locked packages' files added.
    pub fn write_autoload_files(&self, existing: Option<&str>) -> (r: String)
        ensures
            r@ == ser::files_file(add_files(FilesData::new_view(text_view(existing)), lock_files(self.packages@), true)),
    {
        let mut files = FilesData::new(existing);
        files.append_lock(self);
        files.render()
    }

    /// The sections of the static map, from the PSR-4 file and the files file
    /// as they stand (`psr4_text`, `files_text`) with the locked packages added.
    pub fn write_autoload_static(&self, psr4_text: Option<&str>, files_text: Option<&str>) -> (r: StaticData)
        ensures
            r.files@ == ser::static_files(add_files(FilesData::new_view(text_view(files_text)), lock_files(self.packages@), true)),
            r.psr4_length@ == ser::static_psr4_lengths(add_dirs(Psr4Data::new_view(text_view(psr4_text)), lock_pairs(self.packages@), true)),
            r.psr4_dir@ == ser::static_psr4_dirs(add_dirs(Psr4Data::new_view(text_view(psr4_text)), lock_pairs(self.packages@), true)),
    {
        let mut files = FilesData::new(files_text);
        files.append_lock(self);
        let mut psr4 = Psr4Data::new(psr4_text);
        psr4.append_lock(self);
        StaticData::from(&files, &psr4)
    }

    /// The generated loader texts after a change of the lock: the new
    /// `autoload_psr4.php`, the new `autoload_files.php`, and the static map's
    /// sections, which read the new PSR-4 file and the files file as it stood.
    pub fn update_autoload_files(&self, psr4_text: Option<&str>, files_text: Option<&str>) -> (r: (String, String, StaticData))
        ensures
            r.0@ == ser::psr4_file(add_dirs(Psr4Data::new_view(text_view(psr4_text)), lock_pairs(self.packages@), true)),
            r.1@ == ser::files_file(add_files(FilesData::new_view(text_view(files_text)), lock_files(self.packages@), true)),
            r.2.files@ == ser::static_files(add_files(FilesData::new_view(text_view(files_text)), lock_files(self.packages@), true)),
            r.2.psr4_dir@ == ser::static_psr4_dirs(add_dirs(Psr4Data::new_view(Some(r.0@)), lock_pairs(self.packages@), true)),
            r.2.psr4_length@ == ser::static_psr4_lengths(add_dirs(Psr4Data::new_view(Some(r.0@)), lock_pairs(self.packages@), true)),
    {
        let psr4 = self.write_psr4(psr4_text);
        let static_data = self.write_autoload_static(Some(psr4.as_str()), files_text);
        let files = self.write_autoload_files(files_text);
        (psr4, files, static_data)
    }
}

impl Psr4Data {
    /// The map that `new` gives for `content`.
    pub open spec fn new_view(content: Option<Seq<char>>) -> Psr4Entries {
        match content {
            Some(text) => de::psr4_fold(de::lex_from(text, 0), Seq::empty(), Seq::empty(), false),
            None => Seq::empty(),
        }
    }
}

impl FilesData {
    /// The map that `new` gives for `content`.
    pub open spec fn new_view(content: Option<Seq<char>>) -> FilesEntries {
        match content {
            Some(text) => de::files_fold(de::lex_from(text, 0), Seq::empty(), Seq::empty(), false),
            None => Seq::empty(),
        }
    }
}

} // verus!
