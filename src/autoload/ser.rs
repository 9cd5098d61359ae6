//! Writing the loader files: `autoload_psr4.php`, `autoload_files.php`, and the
//! sections of the static map.
use vstd::prelude::*;

use super::{dirs_view, FilesData, FilesEntries, Psr4Data, Psr4Entries};
use crate::package::{name_le, name_le_exec};
use crate::text::{push_chars, push_str, replace_all, replace_exec, to_chars};

verus! {

pub type Psr4Entry = (Seq<char>, Seq<(bool, Seq<char>)>);

/// A PHP single-quoted literal's content: each backslash doubled.
pub open spec fn php_escape(k: Seq<char>) -> Seq<char> {
    replace_all(k, seq!['\\'], seq!['\\', '\\'])
}

/// A path without its trailing `/`.
pub open spec fn strip_slash(d: Seq<char>) -> Seq<char> {
    if d.len() > 0 && d.last() == '/' {
        d.drop_last()
    } else {
        d
    }
}

/// `x` placed after the entries whose keys come no earlier than its own, so
/// that keys stay in descending order.
pub open spec fn insert_desc(s: Seq<Psr4Entry>, x: Psr4Entry) -> Seq<Psr4Entry>
    decreases s.len(),
{
    if s.len() == 0 {
        seq![x]
    } else if !name_le(x.0, s[0].0) {
        seq![x] + s
    } else {
        seq![s[0]] + insert_desc(s.drop_first(), x)
    }
}

/// The entries in descending order of key, entries with equal keys in the
/// order they were given in.
pub open spec fn sort_desc(es: Seq<Psr4Entry>) -> Seq<Psr4Entry>
    decreases es.len(),
{
    if es.len() == 0 {
        Seq::empty()
    } else {
        insert_desc(sort_desc(es.drop_last()), es.last())
    }
}

pub open spec fn psr4_header() -> Seq<char> {
    "<?php\n\n// autoload_psr4.php @generated by phpp\n\n$vendorDir = dirname(__DIR__);\n$baseDir = dirname($vendorDir);\n        \nreturn array(\n"@
}

pub open spec fn files_header() -> Seq<char> {
    "<?php\n\n// autoload_files.php @generated by phpp\n\n$vendorDir = dirname(__DIR__);\n$baseDir = dirname($vendorDir);\n\nreturn array(\n"@
}

/// One directory in `autoload_psr4.php`.
pub open spec fn dir_text(d: (bool, Seq<char>)) -> Seq<char> {
    (if d.0 {
        "$vendorDir . '"@
    } else {
        "$baseDir . '"@
    }) + strip_slash(d.1) + "',"@
}

pub open spec fn dirs_text(ds: Seq<(bool, Seq<char>)>) -> Seq<char>
    decreases ds.len(),
{
    if ds.len() == 0 {
        Seq::empty()
    } else {
        dirs_text(ds.drop_last()) + dir_text(ds.last())
    }
}

/// One prefix with its directories in `autoload_psr4.php`.
pub open spec fn psr4_entry_text(e: Psr4Entry) -> Seq<char> {
    "    '"@ + php_escape(e.0) + "' => array(\n        "@ + dirs_text(e.1) + "\n    ),\n"@
}

pub open spec fn psr4_body(es: Seq<Psr4Entry>) -> Seq<char>
    decreases es.len(),
{
    if es.len() == 0 {
        Seq::empty()
    } else {
        psr4_body(es.drop_last()) + psr4_entry_text(es.last())
    }
}

/// The text of `autoload_psr4.php` for the map `es`.
pub open spec fn psr4_file(es: Seq<Psr4Entry>) -> Seq<char> {
    psr4_header() + psr4_body(sort_desc(es)) + ");"@
}

/// One file in `autoload_files.php`.
pub open spec fn file_text(e: (Seq<char>, (bool, Seq<char>))) -> Seq<char> {
    "    '"@ + e.0 + "' => "@ + (if e.1.0 {
        "$vendorDir"@
    } else {
        "$baseDir"@
    }) + " . '"@ + e.1.1 + "',\n"@
}

pub open spec fn files_body(es: FilesEntries) -> Seq<char>
    decreases es.len(),
{
    if es.len() == 0 {
        Seq::empty()
    } else {
        files_body(es.drop_last()) + file_text(es.last())
    }
}

/// The text of `autoload_files.php` for the map `es`.
pub open spec fn files_file(es: FilesEntries) -> Seq<char> {
    files_header() + files_body(es) + "\n);"@
}

/// Where a path of the static map starts: the vendor directory or the project root.
pub open spec fn static_base(is_vendor: bool) -> Seq<char> {
    if is_vendor {
        "__DIR__ . '/..' . '"@
    } else {
        "__DIR__ . '/../..' . '"@
    }
}

/// One file in the static map.
pub open spec fn static_file_text(e: (Seq<char>, (bool, Seq<char>))) -> Seq<char> {
    "        '"@ + e.0 + "' => "@ + static_base(e.1.0) + e.1.1 + "',\n"@
}

pub open spec fn static_files(es: FilesEntries) -> Seq<char>
    decreases es.len(),
{
    if es.len() == 0 {
        Seq::empty()
    } else {
        static_files(es.drop_last()) + static_file_text(es.last())
    }
}

pub open spec fn digit_char(d: nat) -> char {
    if d == 0 {
        '0'
    } else if d == 1 {
        '1'
    } else if d == 2 {
        '2'
    } else if d == 3 {
        '3'
    } else if d == 4 {
        '4'
    } else if d == 5 {
        '5'
    } else if d == 6 {
        '6'
    } else if d == 7 {
        '7'
    } else if d == 8 {
        '8'
    } else {
        '9'
    }
}

/// `n` in decimal.
pub open spec fn decimal(n: nat) -> Seq<char>
    decreases n,
{
    if n < 10 {
        seq![digit_char(n)]
    } else {
        decimal(n / 10).push(digit_char(n % 10))
    }
}

/// One directory of a prefix in the static map, under its index.
pub open spec fn static_dir_text(i: nat, d: (bool, Seq<char>)) -> Seq<char> {
    "            "@ + decimal(i) + "=> "@ + static_base(d.0) + strip_slash(d.1) + "',\n"@
}

pub open spec fn static_dirs(ds: Seq<(bool, Seq<char>)>) -> Seq<char>
    decreases ds.len(),
{
    if ds.len() == 0 {
        Seq::empty()
    } else {
        static_dirs(ds.drop_last()) + static_dir_text((ds.len() - 1) as nat, ds.last())
    }
}

pub open spec fn static_dir_entry(e: Psr4Entry) -> Seq<char> {
    "        '"@ + php_escape(e.0) + "' => array(\n"@ + static_dirs(e.1) + "        ),\n"@
}

pub open spec fn static_dir_body(es: Seq<Psr4Entry>) -> Seq<char>
    decreases es.len(),
{
    if es.len() == 0 {
        Seq::empty()
    } else {
        static_dir_body(es.drop_last()) + static_dir_entry(es.last())
    }
}

/// The prefix-directory section of the static map: prefixes in descending
/// order, directories under their indices.
pub open spec fn static_psr4_dirs(es: Seq<Psr4Entry>) -> Seq<char> {
    static_dir_body(sort_desc(es))
}

/// The prefixes of `es` that start with `c`, in the map's order.
pub open spec fn keys_starting_with(es: Seq<Psr4Entry>, c: char) -> Seq<Seq<char>>
    decreases es.len(),
{
    if es.len() == 0 {
        Seq::empty()
    } else {
        let rest = keys_starting_with(es.drop_last(), c);
        let k = es.last().0;
        if k.len() > 0 && k[0] == c {
            rest.push(k)
        } else {
            rest
        }
    }
}

/// One prefix and its length in bytes.
pub open spec fn length_line(k: Seq<char>) -> Seq<char> {
    "            '"@ + php_escape(k) + "' => "@ + decimal(vstd::utf8::encode_utf8(k).len()) + ",\n"@
}

pub open spec fn length_lines(ks: Seq<Seq<char>>) -> Seq<char>
    decreases ks.len(),
{
    if ks.len() == 0 {
        Seq::empty()
    } else {
        length_lines(ks.drop_last()) + length_line(ks.last())
    }
}

/// The group of prefixes that start with `c`.
pub open spec fn length_group(es: Seq<Psr4Entry>, c: char) -> Seq<char> {
    "        '"@ + seq![c] + "' => array (\n"@ + length_lines(keys_starting_with(es, c))
        + "        ),\n"@
}

/// `c` added to the characters `s`, which run from the largest down, unless
/// it is among them.
pub open spec fn insert_char_desc(s: Seq<char>, c: char) -> Seq<char>
    decreases s.len(),
{
    if s.len() == 0 {
        seq![c]
    } else if s[0] == c {
        s
    } else if s[0] < c {
        seq![c] + s
    } else {
        seq![s[0]] + insert_char_desc(s.drop_first(), c)
    }
}

/// The first characters of the non-empty prefixes, from the largest down, each once.
pub open spec fn first_chars_desc(es: Seq<Psr4Entry>) -> Seq<char>
    decreases es.len(),
{
    if es.len() == 0 {
        Seq::empty()
    } else {
        let rest = first_chars_desc(es.drop_last());
        let k = es.last().0;
        if k.len() > 0 {
            insert_char_desc(rest, k[0])
        } else {
            rest
        }
    }
}

pub open spec fn length_groups(es: Seq<Psr4Entry>, cs: Seq<char>) -> Seq<char>
    decreases cs.len(),
{
    if cs.len() == 0 {
        Seq::empty()
    } else {
        length_groups(es, cs.drop_last()) + length_group(es, cs.last())
    }
}

/// The prefix-length section of the static map: prefixes grouped by first
/// character, characters in descending order, prefixes in the map's order.
pub open spec fn static_psr4_lengths(es: Seq<Psr4Entry>) -> Seq<char> {
    length_groups(es, first_chars_desc(es))
}

fn digit(d: usize) -> (r: char)
    requires
        d < 10,
    ensures
        r == digit_char(d as nat),
{
    if d == 0 {
        '0'
    } else if d == 1 {
        '1'
    } else if d == 2 {
        '2'
    } else if d == 3 {
        '3'
    } else if d == 4 {
        '4'
    } else if d == 5 {
        '5'
    } else if d == 6 {
        '6'
    } else if d == 7 {
        '7'
    } else if d == 8 {
        '8'
    } else {
        '9'
    }
}

/// Appends `n` in decimal.
pub fn push_decimal(s: &mut String, n: usize)
    ensures
        final(s)@ == old(s)@ + decimal(n as nat),
    decreases n,
{
    if n >= 10 {
        push_decimal(s, n / 10);
        s.push(digit(n % 10));
        assert(decimal(n as nat) == decimal((n / 10) as nat).push(digit_char((n % 10) as nat)));
        assert(old(s)@ + decimal(n as nat) =~= (old(s)@ + decimal((n / 10) as nat)).push(
            digit_char((n % 10) as nat),
        ));
    } else {
        s.push(digit(n));
        assert(old(s)@ + decimal(n as nat) =~= old(s)@.push(digit_char(n as nat)));
    }
}

pub open spec fn entries_view(v: Seq<(String, Vec<(bool, String)>)>) -> Seq<Psr4Entry> {
    v.map_values(|e: (String, Vec<(bool, String)>)| (e.0@, dirs_view(e.1@)))
}

proof fn lemma_insert_desc_at(s: Seq<Psr4Entry>, x: Psr4Entry, p: int)
    requires
        0 <= p <= s.len(),
        forall|k: int| 0 <= k < p ==> name_le(x.0, (#[trigger] s[k]).0),
        p == s.len() || !name_le(x.0, s[p].0),
    ensures
        insert_desc(s, x) == s.insert(p, x),
    decreases s.len(),
{
    if s.len() == 0 {
        assert(s.insert(p, x) =~= seq![x]);
    } else if p == 0 {
        assert(s.insert(p, x) =~= seq![x] + s);
    } else {
        let t = s.drop_first();
        assert forall|k: int| 0 <= k < p - 1 implies name_le(x.0, (#[trigger] t[k]).0) by {
            assert(t[k] == s[k + 1]);
        }
        if p < s.len() {
            assert(t[p - 1] == s[p]);
        }
        lemma_insert_desc_at(t, x, p - 1);
        assert(s.insert(p, x) =~= seq![s[0]] + t.insert(p - 1, x));
    }
}

/// The entries in descending order of key.
pub fn sorted_desc(entries: &Vec<(String, Vec<(bool, String)>)>) -> (r: Vec<(String, Vec<(bool, String)>)>)
    ensures
        entries_view(r@) == sort_desc(entries_view(entries@)),
{
    let ghost all = entries_view(entries@);
    let mut done: Vec<(String, Vec<(bool, String)>)> = Vec::new();
    let mut i: usize = 0;
    assert(all.take(0) =~= Seq::<Psr4Entry>::empty());
    assert(entries_view(done@) =~= Seq::<Psr4Entry>::empty());
    while i < entries.len()
        invariant
            i <= entries.len(),
            all == entries_view(entries@),
            entries_view(done@) == sort_desc(all.take(i as int)),
        decreases entries.len() - i,
    {
        let e = (entries[i].0.clone(), super::clone_dirs(&entries[i].1));
        let ghost x = (e.0@, dirs_view(e.1@));
        assert(x == all[i as int]);
        let key = to_chars(e.0.as_str());
        let mut p: usize = 0;
        while p < done.len() && name_le_exec(&key, &to_chars(done[p].0.as_str()))
            invariant
                p <= done.len(),
                key@ == x.0,
                forall|k: int| 0 <= k < p ==> name_le(x.0, (#[trigger] entries_view(done@)[k]).0),
            decreases done.len() - p,
        {
            p = p + 1;
        }
        let ghost before = done@;
        proof {
            lemma_insert_desc_at(entries_view(before), x, p as int);
        }
        done.insert(p, e);
        proof {
            before.insert_ensures(p as int, e);
            assert(entries_view(done@) =~= entries_view(before).insert(p as int, x));
            assert(all.take(i + 1).drop_last() =~= all.take(i as int));
            assert(all.take(i + 1).last() == x);
        }
        i = i + 1;
    }
    assert(all.take(i as int) =~= all);
    done
}

/// `k` with its backslashes doubled.
fn escaped(k: &String) -> (r: Vec<char>)
    ensures
        r@ == php_escape(k@),
{
    let one = vec!['\\'];
    let two = vec!['\\', '\\'];
    assert(one@ =~= seq!['\\']);
    assert(two@ =~= seq!['\\', '\\']);
    replace_exec(&to_chars(k.as_str()), &one, &two)
}

/// `d` without its trailing `/`.
fn stripped(d: &String) -> (r: Vec<char>)
    ensures
        r@ == strip_slash(d@),
{
    let mut c = to_chars(d.as_str());
    if c.len() > 0 && c[c.len() - 1] == '/' {
        c.pop();
    }
    c
}

impl Psr4Data {
    /// The text of `autoload_psr4.php` for this map: prefixes in descending
    /// order, each with its directories, backslashes doubled in the prefixes.
    pub fn render(&self) -> (r: String)
        requires
            self.wf(),
        ensures
            r@ == psr4_file(self@),
    {
        let entries = self.entries();
        assert(entries_view(entries@) =~= self@);
        let sorted = sorted_desc(&entries);
        let ghost es = entries_view(sorted@);
        let mut content = String::new();
        push_str(
            &mut content,
            "<?php\n\n// autoload_psr4.php @generated by phpp\n\n$vendorDir = dirname(__DIR__);\n$baseDir = dirname($vendorDir);\n        \nreturn array(\n",
        );
        let ghost start = content@;
        let mut i: usize = 0;
        assert(es.take(0) =~= Seq::<Psr4Entry>::empty());
        while i < sorted.len()
            invariant
                i <= sorted.len(),
                es == entries_view(sorted@),
                content@ == start + psr4_body(es.take(i as int)),
            decreases sorted.len() - i,
        {
            let ghost before = content@;
            push_str(&mut content, "    '");
            push_chars(&mut content, &escaped(&sorted[i].0));
            push_str(&mut content, "' => array(\n        ");
            let dirs = &sorted[i].1;
            let ghost ds = dirs_view(dirs@);
            let ghost mid = content@;
            let mut j: usize = 0;
            assert(ds.take(0) =~= Seq::<(bool, Seq<char>)>::empty());
            while j < dirs.len()
                invariant
                    j <= dirs.len(),
                    ds == dirs_view(dirs@),
                    content@ == mid + dirs_text(ds.take(j as int)),
                decreases dirs.len() - j,
            {
                let ghost b = content@;
                if dirs[j].0 {
                    push_str(&mut content, "$vendorDir . '");
                } else {
                    push_str(&mut content, "$baseDir . '");
                }
                push_chars(&mut content, &stripped(&dirs[j].1));
                push_str(&mut content, "',");
                assert(ds.take(j + 1).drop_last() =~= ds.take(j as int));
                assert(content@ =~= b + dir_text(ds[j as int]));
                j = j + 1;
            }
            assert(ds.take(j as int) =~= ds);
            push_str(&mut content, "\n    ),\n");
            assert(es.take(i + 1).drop_last() =~= es.take(i as int));
            assert(es[i as int] == (sorted@[i as int].0@, ds));
            assert(content@ =~= before + psr4_entry_text(es[i as int]));
            i = i + 1;
        }
        assert(es.take(i as int) =~= es);
        push_str(&mut content, ");");
        content
    }

    /// The two PSR-4 sections of the static map: prefix lengths grouped by
    /// first character, and the directories of each prefix under indices.
    pub fn to_static(&self) -> (r: (String, String))
        requires
            self.wf(),
        ensures
            r.0@ == static_psr4_lengths(self@),
            r.1@ == static_psr4_dirs(self@),
    {
        let entries = self.entries();
        assert(entries_view(entries@) =~= self@);
        let lengths = length_section(&entries);
        let sorted = sorted_desc(&entries);
        let ghost es = entries_view(sorted@);
        let mut content = String::new();
        let mut i: usize = 0;
        assert(es.take(0) =~= Seq::<Psr4Entry>::empty());
        while i < sorted.len()
            invariant
                i <= sorted.len(),
                es == entries_view(sorted@),
                content@ == static_dir_body(es.take(i as int)),
            decreases sorted.len() - i,
        {
            let ghost before = content@;
            push_str(&mut content, "        '");
            push_chars(&mut content, &escaped(&sorted[i].0));
            push_str(&mut content, "' => array(\n");
            let dirs = &sorted[i].1;
            let ghost ds = dirs_view(dirs@);
            let ghost mid = content@;
            let mut j: usize = 0;
            assert(ds.take(0) =~= Seq::<(bool, Seq<char>)>::empty());
            while j < dirs.len()
                invariant
                    j <= dirs.len(),
                    ds == dirs_view(dirs@),
                    content@ == mid + static_dirs(ds.take(j as int)),
                decreases dirs.len() - j,
            {
                let ghost b = content@;
                push_str(&mut content, "            ");
                push_decimal(&mut content, j);
                push_str(&mut content, "=> ");
                if dirs[j].0 {
                    push_str(&mut content, "__DIR__ . '/..' . '");
                } else {
                    push_str(&mut content, "__DIR__ . '/../..' . '");
                }
                push_chars(&mut content, &stripped(&dirs[j].1));
                push_str(&mut content, "',\n");
                assert(ds.take(j + 1).drop_last() =~= ds.take(j as int));
                assert(ds.take(j + 1).len() - 1 == j);
                assert(content@ =~= b + static_dir_text(j as nat, ds[j as int]));
                j = j + 1;
            }
            assert(ds.take(j as int) =~= ds);
            push_str(&mut content, "        ),\n");
            assert(es.take(i + 1).drop_last() =~= es.take(i as int));
            assert(es[i as int] == (sorted@[i as int].0@, ds));
            assert(content@ =~= before + static_dir_entry(es[i as int]));
            i = i + 1;
        }
        assert(es.take(i as int) =~= es);
        (lengths, content)
    }
}

/// The prefixes of the entries that start with `c`, each with its length.
fn length_group_text(entries: &Vec<(String, Vec<(bool, String)>)>, c: char) -> (r: String)
    ensures
        r@ == length_group(entries_view(entries@), c),
{
    let ghost es = entries_view(entries@);
    let mut content = String::new();
    push_str(&mut content, "        '");
    content.push(c);
    push_str(&mut content, "' => array (\n");
    let ghost start = content@;
    let mut i: usize = 0;
    assert(es.take(0) =~= Seq::<Psr4Entry>::empty());
    while i < entries.len()
        invariant
            i <= entries.len(),
            es == entries_view(entries@),
            content@ == start + length_lines(keys_starting_with(es.take(i as int), c)),
        decreases entries.len() - i,
    {
        let key = to_chars(entries[i].0.as_str());
        assert(es.take(i + 1).drop_last() =~= es.take(i as int));
        assert(es.take(i + 1).last() == es[i as int]);
        if key.len() > 0 && key[0] == c {
            let ghost b = content@;
            push_str(&mut content, "            '");
            push_chars(&mut content, &escaped(&entries[i].0));
            push_str(&mut content, "' => ");
            push_decimal(&mut content, entries[i].0.as_str().as_bytes().len());
            push_str(&mut content, ",\n");
            assert(content@ =~= b + length_line(key@));
            let ghost ks = keys_starting_with(es.take(i as int), c);
            assert(keys_starting_with(es.take(i + 1), c) == ks.push(key@));
            assert(ks.push(key@).drop_last() =~= ks);
            assert(length_lines(ks.push(key@)) == length_lines(ks) + length_line(key@));
        } else {
            assert(keys_starting_with(es.take(i + 1), c) == keys_starting_with(es.take(i as int), c));
        }
        i = i + 1;
    }
    assert(es.take(i as int) =~= es);
    push_str(&mut content, "        ),\n");
    content
}

proof fn lemma_insert_char_at(s: Seq<char>, c: char, p: int)
    requires
        0 <= p <= s.len(),
        forall|k: int| 0 <= k < p ==> c < #[trigger] s[k],
        p == s.len() || s[p] <= c,
    ensures
        p < s.len() && s[p] == c ==> insert_char_desc(s, c) == s,
        !(p < s.len() && s[p] == c) ==> insert_char_desc(s, c) == s.insert(p, c),
    decreases s.len(),
{
    if s.len() == 0 {
        assert(s.insert(p, c) =~= seq![c]);
    } else if p == 0 {
        assert(s.insert(p, c) =~= seq![c] + s);
    } else {
        let t = s.drop_first();
        assert forall|k: int| 0 <= k < p - 1 implies c < #[trigger] t[k] by {
            assert(t[k] == s[k + 1]);
        }
        if p < s.len() {
            assert(t[p - 1] == s[p]);
        }
        lemma_insert_char_at(t, c, p - 1);
        assert(s.insert(p, c) =~= seq![s[0]] + t.insert(p - 1, c));
        assert(s =~= seq![s[0]] + t);
    }
}

/// The first characters of the non-empty prefixes, from the largest down, each once.
fn first_chars(entries: &Vec<(String, Vec<(bool, String)>)>) -> (r: Vec<char>)
    ensures
        r@ == first_chars_desc(entries_view(entries@)),
{
    let ghost es = entries_view(entries@);
    let mut r: Vec<char> = Vec::new();
    let mut i: usize = 0;
    assert(es.take(0) =~= Seq::<Psr4Entry>::empty());
    while i < entries.len()
        invariant
            i <= entries.len(),
            es == entries_view(entries@),
            r@ == first_chars_desc(es.take(i as int)),
        decreases entries.len() - i,
    {
        let key = to_chars(entries[i].0.as_str());
        assert(es.take(i + 1).drop_last() =~= es.take(i as int));
        assert(es.take(i + 1).last() == es[i as int]);
        if key.len() > 0 {
            let c = key[0];
            let mut p: usize = 0;
            while p < r.len() && r[p] > c
                invariant
                    p <= r.len(),
                    forall|k: int| 0 <= k < p ==> c < #[trigger] r@[k],
                decreases r.len() - p,
            {
                p = p + 1;
            }
            proof {
                lemma_insert_char_at(r@, c, p as int);
            }
            if !(p < r.len() && r[p] == c) {
                r.insert(p, c);
            }
        }
        i = i + 1;
    }
    assert(es.take(i as int) =~= es);
    r
}

/// The prefix-length section of the static map.
fn length_section(entries: &Vec<(String, Vec<(bool, String)>)>) -> (r: String)
    ensures
        r@ == static_psr4_lengths(entries_view(entries@)),
{
    let ghost es = entries_view(entries@);
    let cs = first_chars(entries);
    let mut content = String::new();
    let mut i: usize = 0;
    assert(cs@.take(0) =~= Seq::<char>::empty());
    while i < cs.len()
        invariant
            i <= cs.len(),
            es == entries_view(entries@),
            cs@ == first_chars_desc(es),
            content@ == length_groups(es, cs@.take(i as int)),
        decreases cs.len() - i,
    {
        let group = length_group_text(entries, cs[i]);
        push_str(&mut content, group.as_str());
        assert(cs@.take(i + 1).drop_last() =~= cs@.take(i as int));
        assert(cs@.take(i + 1).last() == cs@[i as int]);
        i = i + 1;
    }
    assert(cs@.take(i as int) =~= cs@);
    content
}

impl FilesData {
    /// The text of `autoload_files.php` for this map, in the map's order.
    pub fn render(&self) -> (r: String)
        ensures
            r@ == files_file(self@),
    {
        let entries = self.entries();
        let ghost es = self@;
        let mut content = String::new();
        push_str(
            &mut content,
            "<?php\n\n// autoload_files.php @generated by phpp\n\n$vendorDir = dirname(__DIR__);\n$baseDir = dirname($vendorDir);\n\nreturn array(\n",
        );
        let ghost start = content@;
        let mut i: usize = 0;
        assert(es.take(0) =~= FilesEntries::empty());
        while i < entries.len()
            invariant
                i <= entries.len(),
                es == self@,
                entries@.len() == es.len(),
                forall|k: int|
                    0 <= k < entries@.len() ==> (#[trigger] entries@[k]).0@ == es[k].0 && (
                    entries@[k].1.0, entries@[k].1.1@) == es[k].1,
                content@ == start + files_body(es.take(i as int)),
            decreases entries.len() - i,
        {
            let ghost b = content@;
            push_str(&mut content, "    '");
            push_str(&mut content, entries[i].0.as_str());
            push_str(&mut content, "' => ");
            if entries[i].1.0 {
                push_str(&mut content, "$vendorDir");
            } else {
                push_str(&mut content, "$baseDir");
            }
            push_str(&mut content, " . '");
            push_str(&mut content, entries[i].1.1.as_str());
            push_str(&mut content, "',\n");
            assert(es.take(i + 1).drop_last() =~= es.take(i as int));
            assert(es.take(i + 1).last() == es[i as int]);
            assert(content@ =~= b + file_text(es[i as int]));
            i = i + 1;
        }
        assert(es.take(i as int) =~= es);
        push_str(&mut content, "\n);");
        content
    }

    /// The files section of the static map, in the map's order.
    pub fn to_static(&self) -> (r: String)
        ensures
            r@ == static_files(self@),
    {
        let entries = self.entries();
        let ghost es = self@;
        let mut content = String::new();
        let mut i: usize = 0;
        assert(es.take(0) =~= FilesEntries::empty());
        while i < entries.len()
            invariant
                i <= entries.len(),
                es == self@,
                entries@.len() == es.len(),
                forall|k: int|
                    0 <= k < entries@.len() ==> (#[trigger] entries@[k]).0@ == es[k].0 && (
                    entries@[k].1.0, entries@[k].1.1@) == es[k].1,
                content@ == static_files(es.take(i as int)),
            decreases entries.len() - i,
        {
            let ghost b = content@;
            push_str(&mut content, "        '");
            push_str(&mut content, entries[i].0.as_str());
            push_str(&mut content, "' => ");
            if entries[i].1.0 {
                push_str(&mut content, "__DIR__ . '/..' . '");
            } else {
                push_str(&mut content, "__DIR__ . '/../..' . '");
            }
            push_str(&mut content, entries[i].1.1.as_str());
            push_str(&mut content, "',\n");
            assert(es.take(i + 1).drop_last() =~= es.take(i as int));
            assert(es.take(i + 1).last() == es[i as int]);
            assert(content@ =~= b + static_file_text(es[i as int]));
            i = i + 1;
        }
        assert(es.take(i as int) =~= es);
        content
    }
}

} // verus!
