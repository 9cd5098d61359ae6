//! A plainer reader of `autoload_psr4.php`: every `$variable` is passed over,
//! so directories are kept without their origin.
use vstd::prelude::*;

pub mod de;

verus! {

/// Namespace prefix to directories.
pub type DirMap = indexmap::IndexMap<String, Vec<String>>;

pub type DirEntries = Seq<(Seq<char>, Seq<Seq<char>>)>;

/// The entries of a prefix-to-directories map, in the map's order.
pub uninterp spec fn dir_entries(m: indexmap::IndexMap<String, Vec<String>>) -> Seq<
    (Seq<char>, Seq<Seq<char>>),
>;

pub open spec fn strings_view(v: Seq<String>) -> Seq<Seq<char>> {
    v.map_values(|s: String| s@)
}

/// Relies on `IndexMap::new`: an empty map.
#[verifier::external_body]
fn dir_map_new() -> (r: DirMap)
    ensures
        dir_entries(r) == Seq::<(Seq<char>, Seq<Seq<char>>)>::empty(),
{
    indexmap::IndexMap::new()
}

/// Relies on `IndexMap::len`.
#[verifier::external_body]
fn dir_map_len(m: &DirMap) -> (r: usize)
    ensures
        r == dir_entries(*m).len(),
{
    m.len()
}

/// Relies on `IndexMap::get_index`: the entry at index `i` in the map's order.
#[verifier::external_body]
fn dir_map_get_index(m: &DirMap, i: usize) -> (r: Option<(&String, &Vec<String>)>)
    ensures
        match r {
            Some((k, v)) => i < dir_entries(*m).len() && dir_entries(*m)[i as int] == (
                k@,
                strings_view(v@),
            ),
            None => i >= dir_entries(*m).len(),
        },
{
    m.get_index(i)
}

/// Relies on `IndexMap::get_index_of`: where `key` stands in the map's order.
#[verifier::external_body]
fn dir_map_get_index_of(m: &DirMap, key: &String) -> (r: Option<usize>)
    ensures
        match r {
            Some(i) => i < dir_entries(*m).len() && dir_entries(*m)[i as int].0 == key@,
            None => forall|i: int|
                0 <= i < dir_entries(*m).len() ==> (#[trigger] dir_entries(*m)[i]).0 != key@,
        },
{
    m.get_index_of(key)
}

/// Relies on `IndexMap::insert_full`: an existing key keeps its place and gets
/// the new value; a new key goes last.
#[verifier::external_body]
fn dir_map_insert(m: &mut DirMap, key: String, value: Vec<String>) -> (r: (usize, Option<Vec<String>>))
    ensures
        match r.1 {
            Some(old_value) => {
                &&& r.0 < dir_entries(*old(m)).len()
                &&& dir_entries(*old(m))[r.0 as int] == (key@, strings_view(old_value@))
                &&& dir_entries(*final(m)) == dir_entries(*old(m)).update(
                    r.0 as int,
                    (key@, strings_view(value@)),
                )
            },
            None => {
                &&& r.0 == dir_entries(*old(m)).len()
                &&& forall|i: int|
                    0 <= i < dir_entries(*old(m)).len() ==> (#[trigger] dir_entries(*old(m))[i]).0
                        != key@
                &&& dir_entries(*final(m)) == dir_entries(*old(m)).push((key@, strings_view(value@)))
            },
        },
{
    m.insert_full(key, value)
}

/// `e` with `d` added to the directories of `key`, a new entry where `key` is absent.
pub open spec fn with_plain_dir(e: DirEntries, key: Seq<char>, d: Seq<char>) -> DirEntries {
    if crate::autoload::has_key(e, key) {
        let i = crate::autoload::index_of_key(e, key);
        e.update(i, (key, e[i].1.push(d)))
    } else {
        e.push((key, seq![d]))
    }
}

fn clone_strings(v: &Vec<String>) -> (r: Vec<String>)
    ensures
        strings_view(r@) == strings_view(v@),
{
    let mut r: Vec<String> = Vec::new();
    let mut i: usize = 0;
    while i < v.len()
        invariant
            i <= v.len(),
            r@.len() == i,
            forall|k: int| 0 <= k < i ==> (#[trigger] r@[k])@ == v@[k]@,
        decreases v.len() - i,
    {
        r.push(v[i].clone());
        i = i + 1;
    }
    assert(strings_view(r@) =~= strings_view(v@));
    r
}

/// The PSR-4 map as this reader keeps it: each prefix with its directories.
pub struct Psr4Data {
    pub data: DirMap,
}

impl View for Psr4Data {
    type V = DirEntries;

    open spec fn view(&self) -> DirEntries {
        dir_entries(self.data)
    }
}

impl Psr4Data {
    pub open spec fn wf(&self) -> bool {
        crate::autoload::keys_unique(self@)
    }

    pub fn empty() -> (r: Self)
        ensures
            r.wf(),
            r@ == Seq::<(Seq<char>, Seq<Seq<char>>)>::empty(),
    {
        Psr4Data { data: dir_map_new() }
    }

    /// Adds `dir` to the directories of `key`.
    pub fn push_dir(&mut self, key: &String, dir: String)
        requires
            old(self).wf(),
        ensures
            final(self).wf(),
            final(self)@ == with_plain_dir(old(self)@, key@, dir@),
    {
        let ghost e = self@;
        match dir_map_get_index_of(&self.data, key) {
            Some(i) => {
                proof {
                    crate::autoload::lemma_unique_index(e, key@, i as int);
                }
                let current = match dir_map_get_index(&self.data, i) {
                    Some((_, v)) => v,
                    None => {
                        return;
                    },
                };
                let mut next = clone_strings(current);
                let ghost before = next@;
                let ghost d = dir@;
                next.push(dir);
                assert(strings_view(next@) =~= strings_view(before).push(d));
                dir_map_insert(&mut self.data, key.clone(), next);
                assert forall|a: int, b: int| 0 <= a < b < self@.len() implies (#[trigger] self@[a]).0
                    != (#[trigger] self@[b]).0 by {
                    assert(e[a].0 != e[b].0);
                }
            },
            None => {
                let ghost d = dir@;
                let mut next: Vec<String> = Vec::new();
                next.push(dir);
                assert(strings_view(next@) =~= seq![d]);
                dir_map_insert(&mut self.data, key.clone(), next);
                assert forall|a: int, b: int| 0 <= a < b < self@.len() implies (#[trigger] self@[a]).0
                    != (#[trigger] self@[b]).0 by {
                    if b < e.len() {
                        assert(e[a].0 != e[b].0);
                    }
                }
            },
        }
    }

    /// The entries, in the map's order.
    pub fn entries(&self) -> (r: Vec<(String, Vec<String>)>)
        ensures
            r@.len() == self@.len(),
            forall|i: int|
                0 <= i < r@.len() ==> (#[trigger] r@[i]).0@ == self@[i].0 && strings_view(r@[i].1@)
                    == self@[i].1,
    {
        let n = dir_map_len(&self.data);
        let mut r: Vec<(String, Vec<String>)> = Vec::new();
        let mut i: usize = 0;
        while i < n
            invariant
                n == self@.len(),
                i <= n,
                r@.len() == i,
                forall|k: int|
                    0 <= k < i ==> (#[trigger] r@[k]).0@ == self@[k].0 && strings_view(r@[k].1@)
                        == self@[k].1,
            decreases n - i,
        {
            match dir_map_get_index(&self.data, i) {
                Some((k, v)) => {
                    r.push((k.clone(), clone_strings(v)));
                },
                None => {
                    return r;
                },
            }
            i = i + 1;
        }
        r
    }
}

} // verus!
