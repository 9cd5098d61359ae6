//! Reading back what the emitter writes: an `autoload_psr4.php` file parses
//! back into the map it was written from.
use vstd::prelude::*;

use super::de::{
    lex_from, lex_step, literal_char, psr4_fold, scan_other, scan_spaces, stop_char, unescape,
    Lexeme,
};
use super::ser::{dir_text, dirs_text, php_escape, psr4_body, psr4_entry_text, strip_slash, Psr4Entry};
use super::{has_key, index_of_key, keys_unique, with_dir, Psr4Entries};
use crate::text::replace_all;

verus! {

proof fn lemma_pieces()
    ensures
        "    '"@ == seq![' ', ' ', ' ', ' ', '\''],
        "' => array(\n        "@ == seq![
            '\'', ' ', '=', '>', ' ', 'a', 'r', 'r', 'a', 'y', '(', '\n', ' ', ' ', ' ', ' ', ' ', ' ', ' ', ' ',
        ],
        "\n    ),\n"@ == seq!['\n', ' ', ' ', ' ', ' ', ')', ',', '\n'],
        "$vendorDir . '"@ == seq!['$', 'v', 'e', 'n', 'd', 'o', 'r', 'D', 'i', 'r', ' ', '.', ' ', '\''],
        "$baseDir . '"@ == seq!['$', 'b', 'a', 's', 'e', 'D', 'i', 'r', ' ', '.', ' ', '\''],
        "',"@ == seq!['\'', ','],
        ");"@ == seq![')', ';'],
{
    reveal_strlit("    '");
    reveal_strlit("' => array(\n        ");
    reveal_strlit("\n    ),\n");
    reveal_strlit("$vendorDir . '");
    reveal_strlit("$baseDir . '");
    reveal_strlit("',");
    reveal_strlit(");");
    assert("    '"@ =~= seq![' ', ' ', ' ', ' ', '\'']);
    assert("' => array(\n        "@ =~= seq![
        '\'', ' ', '=', '>', ' ', 'a', 'r', 'r', 'a', 'y', '(', '\n', ' ', ' ', ' ', ' ', ' ', ' ', ' ', ' ',
    ]);
    assert("\n    ),\n"@ =~= seq!['\n', ' ', ' ', ' ', ' ', ')', ',', '\n']);
    assert("$vendorDir . '"@ =~= seq!['$', 'v', 'e', 'n', 'd', 'o', 'r', 'D', 'i', 'r', ' ', '.', ' ', '\'']);
    assert("$baseDir . '"@ =~= seq!['$', 'b', 'a', 's', 'e', 'D', 'i', 'r', ' ', '.', ' ', '\'']);
    assert("',"@ =~= seq!['\'', ',']);
    assert(");"@ =~= seq![')', ';']);
}

/// `t` stands in `s` from position `p` on.
pub open spec fn at(s: Seq<char>, p: int, t: Seq<char>) -> bool {
    0 <= p && p + t.len() <= s.len() && forall|i: int| 0 <= i < t.len() ==> s[p + i] == #[trigger] t[i]
}

proof fn lemma_at_split(s: Seq<char>, p: int, a: Seq<char>, b: Seq<char>)
    requires
        at(s, p, a + b),
    ensures
        at(s, p, a),
        at(s, p + a.len(), b),
{
    assert forall|i: int| 0 <= i < a.len() implies s[p + i] == #[trigger] a[i] by {
        assert((a + b)[i] == a[i]);
    }
    assert forall|i: int| 0 <= i < b.len() implies s[p + a.len() + i] == #[trigger] b[i] by {
        assert((a + b)[a.len() + i] == b[i]);
    }
}

proof fn lemma_scan_spaces_to(s: Seq<char>, q: int, end: int)
    requires
        0 <= q <= end <= s.len(),
        forall|i: int| q <= i < end ==> s[i] == ' ',
        end == s.len() || s[end] != ' ',
    ensures
        scan_spaces(s, q) == end,
    decreases end - q,
{
    if q < end {
        lemma_scan_spaces_to(s, q + 1, end);
    }
}

proof fn lemma_scan_other_to(s: Seq<char>, q: int, end: int)
    requires
        0 <= q <= end <= s.len(),
        forall|i: int| q <= i < end ==> !stop_char(s[i]),
        end == s.len() || stop_char(s[end]),
    ensures
        scan_other(s, q) == end,
    decreases end - q,
{
    if q < end {
        lemma_scan_other_to(s, q + 1, end);
    }
}

proof fn lemma_scan_literal_to(s: Seq<char>, q: int, end: int)
    requires
        0 <= q <= end < s.len(),
        forall|i: int| q <= i < end ==> literal_char(s[i]),
        !literal_char(s[end]),
    ensures
        super::de::scan_literal(s, q) == end,
    decreases end - q,
{
    if q < end {
        lemma_scan_literal_to(s, q + 1, end);
    }
}

/// A run of spaces is one skipped token.
proof fn lemma_space_run(s: Seq<char>, p: int, end: int)
    requires
        0 <= p < end <= s.len(),
        forall|i: int| p <= i < end ==> s[i] == ' ',
        end == s.len() || s[end] != ' ',
    ensures
        lex_from(s, p) == lex_from(s, end),
{
    lemma_scan_spaces_to(s, p + 1, end);
    assert(lex_step(s, p) == (Some(Lexeme::Space), end));
}

/// A character that starts no token of its own, with the characters after it
/// up to the next stop character, is one skipped token.
proof fn lemma_other_run(s: Seq<char>, p: int, end: int)
    requires
        0 <= p < end <= s.len(),
        s[p] != 'r' && s[p] != ' ' && s[p] != 'a' && s[p] != '\'' && s[p] != '=' && s[p] != '$'
            && s[p] != '.' && s[p] != ',' && s[p] != ')',
        forall|i: int| p < i < end ==> !stop_char(s[i]),
        end == s.len() || stop_char(s[end]),
    ensures
        lex_from(s, p) == lex_from(s, end),
{
    lemma_scan_other_to(s, p + 1, end);
    assert(lex_step(s, p) == (Some(Lexeme::Other), end));
}

/// A quoted run of literal characters is one literal token.
proof fn lemma_literal_run(s: Seq<char>, p: int, end: int)
    requires
        0 <= p < end < s.len(),
        s[p] == '\'',
        forall|i: int| p < i < end ==> literal_char(s[i]),
        s[end] == '\'',
    ensures
        lex_from(s, p) == seq![Lexeme::Literal(s.subrange(p + 1, end))] + lex_from(s, end + 1),
{
    lemma_scan_literal_to(s, p + 1, end);
    assert(lex_step(s, p) == (Some(Lexeme::Literal(s.subrange(p + 1, end))), end + 1));
}

/// Every character of `t` may stand in a literal.
pub open spec fn literal_text(t: Seq<char>) -> bool {
    forall|i: int| 0 <= i < t.len() ==> literal_char(#[trigger] t[i])
}

/// The tokens of one directory line.
pub open spec fn dir_toks(d: (bool, Seq<char>)) -> Seq<Lexeme> {
    seq![
        if d.0 {
            Lexeme::VendorDir
        } else {
            Lexeme::BaseDir
        },
        Lexeme::Literal(strip_slash(d.1)),
        Lexeme::ArraySplit,
    ]
}

proof fn lemma_lex_dir(s: Seq<char>, x: int, d: (bool, Seq<char>))
    requires
        at(s, x, dir_text(d)),
        literal_text(strip_slash(d.1)),
    ensures
        lex_from(s, x) == dir_toks(d) + lex_from(s, x + dir_text(d).len()),
{
    lemma_pieces();
    let w = if d.0 {
        "$vendorDir . '"@
    } else {
        "$baseDir . '"@
    };
    let p = strip_slash(d.1);
    let q = "',"@;
    lemma_at_split(s, x, w + p, q);
    lemma_at_split(s, x, w, p);
    let n: int = if d.0 {
        10
    } else {
        8
    };
    let y = x + n;
    let lit = y + 3;
    let close = lit + 1 + p.len();
    assert(s[x] == '$');
    if d.0 {
        assert(s[x + 1] == 'v');
        assert(lex_step(s, x) == (Some(Lexeme::VendorDir), y));
    } else {
        assert(s[x + 1] == 'b');
        assert(lex_step(s, x) == (Some(Lexeme::BaseDir), y));
    }
    assert(s[y] == ' ' && s[y + 1] == '.' && s[y + 2] == ' ' && s[lit] == '\'');
    lemma_space_run(s, y, y + 1);
    assert(lex_step(s, y + 1) == (Some(Lexeme::Dot), y + 2));
    lemma_space_run(s, y + 2, lit);
    assert(s[close] == '\'' && s[close + 1] == ',');
    assert forall|i: int| lit < i < close implies literal_char(s[i]) by {
        assert(s[x + w.len() + (i - lit - 1)] == p[i - lit - 1]);
    }
    lemma_literal_run(s, lit, close);
    assert(s.subrange(lit + 1, close) =~= p) by {
        assert forall|i: int| 0 <= i < p.len() implies s.subrange(lit + 1, close)[i] == p[i] by {
            assert(s[x + w.len() + i] == p[i]);
        }
    }
    assert(lex_step(s, close + 1) == (Some(Lexeme::ArraySplit), close + 2));
    assert(close + 2 == x + dir_text(d).len());
    assert(lex_from(s, x) =~= dir_toks(d) + lex_from(s, x + dir_text(d).len()));
}


/// The tokens of a list of directory lines.
pub open spec fn dirs_toks(ds: Seq<(bool, Seq<char>)>) -> Seq<Lexeme>
    decreases ds.len(),
{
    if ds.len() == 0 {
        Seq::empty()
    } else {
        dirs_toks(ds.drop_last()) + dir_toks(ds.last())
    }
}

/// Every directory, without its trailing `/`, may stand in a literal.
pub open spec fn dirs_readable(ds: Seq<(bool, Seq<char>)>) -> bool {
    forall|j: int| 0 <= j < ds.len() ==> literal_text(strip_slash((#[trigger] ds[j]).1))
}

proof fn lemma_lex_dirs(s: Seq<char>, x: int, ds: Seq<(bool, Seq<char>)>)
    requires
        at(s, x, dirs_text(ds)),
        dirs_readable(ds),
    ensures
        lex_from(s, x) == dirs_toks(ds) + lex_from(s, x + dirs_text(ds).len()),
    decreases ds.len(),
{
    if ds.len() == 0 {
        assert(dirs_toks(ds) + lex_from(s, x) =~= lex_from(s, x));
    } else {
        let front = ds.drop_last();
        lemma_at_split(s, x, dirs_text(front), dir_text(ds.last()));
        assert forall|j: int| 0 <= j < front.len() implies literal_text(
            strip_slash((#[trigger] front[j]).1),
        ) by {
            assert(front[j] == ds[j]);
        }
        lemma_lex_dirs(s, x, front);
        assert(literal_text(strip_slash(ds[ds.len() - 1].1)));
        lemma_lex_dir(s, x + dirs_text(front).len(), ds.last());
        assert(dirs_toks(ds) + lex_from(s, x + dirs_text(ds).len()) =~= dirs_toks(front) + (
        dir_toks(ds.last()) + lex_from(s, x + dirs_text(ds).len())));
    }
}

proof fn lemma_dirs_text_start(ds: Seq<(bool, Seq<char>)>)
    requires
        ds.len() > 0,
    ensures
        dirs_text(ds).len() > 0,
        dirs_text(ds)[0] == '$',
    decreases ds.len(),
{
    lemma_pieces();
    let front = ds.drop_last();
    let w = if ds.last().0 {
        "$vendorDir . '"@
    } else {
        "$baseDir . '"@
    };
    assert(dir_text(ds.last()) == w + strip_slash(ds.last().1) + "',"@);
    assert(dir_text(ds.last())[0] == '$');
    if front.len() > 0 {
        lemma_dirs_text_start(front);
    } else {
        assert(dirs_text(front) == Seq::<char>::empty());
        assert(dirs_text(ds) =~= dir_text(ds.last()));
    }
}

/// An entry that reads back as written: a non-empty prefix and at least one
/// directory, all of literal characters.
pub open spec fn entry_readable(e: Psr4Entry) -> bool {
    &&& e.0.len() > 0
    &&& literal_text(e.0)
    &&& e.1.len() > 0
    &&& dirs_readable(e.1)
}

/// The tokens of one entry.
pub open spec fn entry_toks(e: Psr4Entry) -> Seq<Lexeme> {
    seq![Lexeme::Literal(php_escape(e.0)), Lexeme::Arrow, Lexeme::ArrayStart] + dirs_toks(e.1)
        + seq![Lexeme::ArrayEnd, Lexeme::ArraySplit]
}

proof fn lemma_escape_literal(k: Seq<char>)
    requires
        literal_text(k),
    ensures
        literal_text(php_escape(k)),
    decreases k.len(),
{
    if k.len() > 0 {
        assert(k.take(1) =~= seq![k[0]]);
        let rest = k.skip(1);
        assert forall|i: int| 0 <= i < rest.len() implies literal_char(#[trigger] rest[i]) by {
            assert(rest[i] == k[i + 1]);
        }
        lemma_escape_literal(rest);
        if k[0] == '\\' {
            assert(php_escape(k) == seq!['\\', '\\'] + php_escape(rest));
        } else {
            assert(k.take(1)[0] != seq!['\\'][0]);
            assert(php_escape(k) == seq![k[0]] + php_escape(rest));
        }
        assert forall|i: int| 0 <= i < php_escape(k).len() implies literal_char(
            #[trigger] php_escape(k)[i],
        ) by {
            if k[0] == '\\' {
                if i >= 2 {
                    assert(php_escape(k)[i] == php_escape(rest)[i - 2]);
                }
            } else {
                if i >= 1 {
                    assert(php_escape(k)[i] == php_escape(rest)[i - 1]);
                }
            }
        }
    }
}

/// Doubling the backslashes and making them single again gives the text back.
proof fn lemma_unescape_escape(k: Seq<char>)
    ensures
        unescape(php_escape(k)) == k,
    decreases k.len(),
{
    if k.len() > 0 {
        let rest = k.skip(1);
        assert(k.take(1) =~= seq![k[0]]);
        lemma_unescape_escape(rest);
        if k[0] == '\\' {
            assert(php_escape(k) == seq!['\\', '\\'] + php_escape(rest));
            let e = seq!['\\', '\\'] + php_escape(rest);
            assert(e.take(2) =~= seq!['\\', '\\']);
            assert(e.skip(2) =~= php_escape(rest));
            assert(unescape(e) == seq!['\\'] + unescape(php_escape(rest)));
            assert(k =~= seq!['\\'] + rest);
        } else {
            assert(k.take(1)[0] != seq!['\\'][0]);
            assert(php_escape(k) == seq![k[0]] + php_escape(rest));
            let e = seq![k[0]] + php_escape(rest);
            assert(e.skip(1) =~= php_escape(rest));
            if e.len() >= 2 {
                assert(e.take(2)[0] == k[0]);
                assert(e.take(2) != seq!['\\', '\\']);
            }
            assert(unescape(e) == seq![k[0]] + unescape(php_escape(rest)));
            assert(k =~= seq![k[0]] + rest);
        }
    } else {
        assert(php_escape(k) == k);
    }
}


/// What follows an entry in the written text: the next entry, which starts
/// with a space, or the closing `);`.
pub open spec fn entry_follow(s: Seq<char>, q: int) -> bool {
    (0 <= q < s.len() && s[q] == ' ') || (0 <= q && q + 2 == s.len() && s[q] == ')' && s[q + 1]
        == ';')
}

#[verifier::rlimit(40)]
proof fn lemma_lex_entry(s: Seq<char>, p: int, e: Psr4Entry)
    requires
        at(s, p, psr4_entry_text(e)),
        entry_readable(e),
        entry_follow(s, p + psr4_entry_text(e).len()),
    ensures
        lex_from(s, p) == entry_toks(e) + (if s[p + psr4_entry_text(e).len()] == ' ' {
            lex_from(s, p + psr4_entry_text(e).len())
        } else {
            Seq::<Lexeme>::empty()
        }),
{
    lemma_pieces();
    let a = "    '"@;
    let k = php_escape(e.0);
    let b = "' => array(\n        "@;
    let d = dirs_text(e.1);
    let c = "\n    ),\n"@;
    assert(psr4_entry_text(e) == a + k + b + d + c);
    lemma_at_split(s, p, a + k + b + d, c);
    lemma_at_split(s, p, a + k + b, d);
    lemma_at_split(s, p, a + k, b);
    lemma_at_split(s, p, a, k);
    let k0 = p + 5;
    let b0 = k0 + k.len();
    let d0 = b0 + 20;
    let c0 = d0 + d.len();
    let q = c0 + 8;
    assert(q == p + psr4_entry_text(e).len());
    assert(s[p] == ' ' && s[p + 1] == ' ' && s[p + 2] == ' ' && s[p + 3] == ' ' && s[p + 4] == '\'');
    lemma_space_run(s, p, p + 4);
    lemma_escape_literal(e.0);
    assert(s[b0] == '\'');
    assert forall|i: int| p + 4 < i < b0 implies literal_char(s[i]) by {
        assert(s[p + a.len() + (i - k0)] == k[i - k0]);
    }
    lemma_literal_run(s, p + 4, b0);
    assert(s.subrange(k0, b0) =~= k) by {
        assert forall|i: int| 0 <= i < k.len() implies s.subrange(k0, b0)[i] == k[i] by {
            assert(s[p + a.len() + i] == k[i]);
        }
    }
    assert(s[b0 + 1] == ' ' && s[b0 + 2] == '=' && s[b0 + 3] == '>' && s[b0 + 4] == ' ');
    assert(s[b0 + 5] == 'a' && s[b0 + 6] == 'r' && s[b0 + 11] == '\n' && s[b0 + 12] == ' ');
    lemma_space_run(s, b0 + 1, b0 + 2);
    assert(lex_step(s, b0 + 2) == (Some(Lexeme::Arrow), b0 + 4));
    assert(lex_from(s, b0 + 2) == seq![Lexeme::Arrow] + lex_from(s, b0 + 4));
    lemma_space_run(s, b0 + 4, b0 + 5);
    assert(lex_step(s, b0 + 5) == (Some(Lexeme::ArrayStart), b0 + 11));
    assert(lex_from(s, b0 + 5) == seq![Lexeme::ArrayStart] + lex_from(s, b0 + 11));
    lemma_other_run(s, b0 + 11, b0 + 12);
    lemma_dirs_text_start(e.1);
    assert(s[d0] == d[0]);
    assert forall|i: int| b0 + 12 <= i < d0 implies s[i] == ' ' by {
        assert(s[p + (a + k).len() + (i - b0)] == b[i - b0]);
    }
    lemma_space_run(s, b0 + 12, d0);
    lemma_lex_dirs(s, d0, e.1);
    assert(s[c0] == '\n' && s[c0 + 1] == ' ' && s[c0 + 4] == ' ' && s[c0 + 5] == ')');
    assert(s[c0 + 6] == ',' && s[c0 + 7] == '\n');
    lemma_other_run(s, c0, c0 + 1);
    assert forall|i: int| c0 + 1 <= i < c0 + 5 implies s[i] == ' ' by {
        assert(s[p + (a + k + b + d).len() + (i - c0)] == c[i - c0]);
    }
    lemma_space_run(s, c0 + 1, c0 + 5);
    assert(lex_step(s, c0 + 5) == (Some(Lexeme::ArrayEnd), c0 + 6));
    assert(lex_from(s, c0 + 5) == seq![Lexeme::ArrayEnd] + lex_from(s, c0 + 6));
    assert(lex_step(s, c0 + 6) == (Some(Lexeme::ArraySplit), c0 + 7));
    assert(lex_from(s, c0 + 6) == seq![Lexeme::ArraySplit] + lex_from(s, c0 + 7));
    if s[q] == ' ' {
        lemma_other_run(s, c0 + 7, q);
    } else {
        lemma_other_run(s, c0 + 7, s.len() as int);
        assert(lex_from(s, s.len() as int) == Seq::<Lexeme>::empty());
    }
    let tail = if s[q] == ' ' {
        lex_from(s, q)
    } else {
        Seq::<Lexeme>::empty()
    };
    assert(lex_from(s, p) =~= entry_toks(e) + tail);
}


/// Directories without their trailing `/`.
pub open spec fn strip_dirs(ds: Seq<(bool, Seq<char>)>) -> Seq<(bool, Seq<char>)> {
    ds.map_values(|d: (bool, Seq<char>)| (d.0, strip_slash(d.1)))
}

/// `e` with the directories `ds` added one by one under `k`.
pub open spec fn add_plain(e: Psr4Entries, k: Seq<char>, ds: Seq<(bool, Seq<char>)>) -> Psr4Entries
    decreases ds.len(),
{
    if ds.len() == 0 {
        e
    } else {
        with_dir(add_plain(e, k, ds.drop_last()), k, ds.last(), false)
    }
}

pub open spec fn last_flag(ds: Seq<(bool, Seq<char>)>, v: bool) -> bool {
    if ds.len() == 0 {
        v
    } else {
        ds.last().0
    }
}

proof fn lemma_fold_dirs(
    ds: Seq<(bool, Seq<char>)>,
    rest: Seq<Lexeme>,
    e: Psr4Entries,
    k: Seq<char>,
    v: bool,
)
    requires
        k.len() > 0,
    ensures
        psr4_fold(dirs_toks(ds) + rest, e, k, v) == psr4_fold(
            rest,
            add_plain(e, k, strip_dirs(ds)),
            k,
            last_flag(ds, v),
        ),
    decreases ds.len(),
{
    if ds.len() == 0 {
        assert(dirs_toks(ds) + rest =~= rest);
        assert(strip_dirs(ds) =~= Seq::<(bool, Seq<char>)>::empty());
    } else {
        let front = ds.drop_last();
        let d = ds.last();
        assert(dirs_toks(ds) + rest =~= dirs_toks(front) + (dir_toks(d) + rest));
        lemma_fold_dirs(front, dir_toks(d) + rest, e, k, v);
        let t = dir_toks(d) + rest;
        let t1 = t.drop_first();
        let t2 = t1.drop_first();
        assert(t1 =~= seq![Lexeme::Literal(strip_slash(d.1)), Lexeme::ArraySplit] + rest);
        assert(t2 =~= seq![Lexeme::ArraySplit] + rest);
        assert(t2.drop_first() =~= rest);
        assert(strip_dirs(ds).drop_last() =~= strip_dirs(front));
        assert(strip_dirs(ds).last() == (d.0, strip_slash(d.1)));
        let e2 = add_plain(e, k, strip_dirs(front));
        let v2 = last_flag(front, v);
        let e3 = with_dir(e2, k, (d.0, strip_slash(d.1)), false);
        assert(add_plain(e, k, strip_dirs(ds)) == e3);
        assert(t[0] == (if d.0 {
            Lexeme::VendorDir
        } else {
            Lexeme::BaseDir
        }));
        assert(psr4_fold(t, e2, k, v2) == psr4_fold(t1, e2, k, d.0));
        assert(t1[0] == Lexeme::Literal(strip_slash(d.1)));
        assert(psr4_fold(t1, e2, k, d.0) == psr4_fold(t2, e3, k, d.0));
        assert(t2[0] == Lexeme::ArraySplit);
        assert(psr4_fold(t2, e3, k, d.0) == psr4_fold(rest, e3, k, d.0));
    }
}

proof fn lemma_add_new_key(e: Psr4Entries, k: Seq<char>, ds: Seq<(bool, Seq<char>)>)
    requires
        keys_unique(e),
        !has_key(e, k),
        ds.len() > 0,
    ensures
        add_plain(e, k, ds) == e.push((k, ds)),
    decreases ds.len(),
{
    let front = ds.drop_last();
    if ds.len() == 1 {
        assert(add_plain(e, k, front) == e);
        assert(ds =~= seq![ds.last()]);
    } else {
        lemma_add_new_key(e, k, front);
        let e1 = e.push((k, front));
        assert forall|a: int, b: int| 0 <= a < b < e1.len() implies (#[trigger] e1[a]).0 != (
        #[trigger] e1[b]).0 by {
            if b < e.len() {
                assert(e[a].0 != e[b].0);
            } else {
                assert(e1[a] == e[a]);
            }
        }
        assert(e1[e.len() as int].0 == k);
        super::lemma_unique_index(e1, k, e.len() as int);
        assert(front.push(ds.last()) =~= ds);
        assert(e1.update(e.len() as int, (k, e1[e.len() as int].1.push(ds.last()))) =~= e.push(
            (k, ds),
        ));
    }
}

proof fn lemma_fold_entry(ent: Psr4Entry, rest: Seq<Lexeme>, e: Psr4Entries)
    requires
        entry_readable(ent),
        keys_unique(e),
        !has_key(e, ent.0),
    ensures
        psr4_fold(entry_toks(ent) + rest, e, Seq::empty(), false) == psr4_fold(
            rest,
            e.push((ent.0, strip_dirs(ent.1))),
            Seq::empty(),
            false,
        ),
{
    let k = ent.0;
    let ds = ent.1;
    lemma_unescape_escape(k);
    let closing = seq![Lexeme::ArrayEnd, Lexeme::ArraySplit] + rest;
    let t = entry_toks(ent) + rest;
    assert(t[0] == Lexeme::Literal(php_escape(k)));
    let t1 = t.drop_first();
    assert(t1 =~= seq![Lexeme::Arrow, Lexeme::ArrayStart] + (dirs_toks(ds) + closing));
    let t2 = t1.drop_first();
    assert(t2 =~= seq![Lexeme::ArrayStart] + (dirs_toks(ds) + closing));
    assert(t2.drop_first() =~= dirs_toks(ds) + closing);
    lemma_fold_dirs(ds, closing, e, k, false);
    assert(closing.drop_first() =~= seq![Lexeme::ArraySplit] + rest);
    assert(closing.drop_first().drop_first() =~= rest);
    lemma_add_new_key(e, k, strip_dirs(ds));
    let empty = Seq::<char>::empty();
    assert(psr4_fold(t, e, empty, false) == psr4_fold(t1, e, k, false));
    assert(t1[0] == Lexeme::Arrow);
    assert(psr4_fold(t1, e, k, false) == psr4_fold(t2, e, k, false));
    assert(t2[0] == Lexeme::ArrayStart);
    assert(psr4_fold(t2, e, k, false) == psr4_fold(dirs_toks(ds) + closing, e, k, false));
    let added = add_plain(e, k, strip_dirs(ds));
    let flag = last_flag(ds, false);
    assert(closing[0] == Lexeme::ArrayEnd);
    assert(psr4_fold(closing, added, k, flag) == psr4_fold(closing.drop_first(), added, empty, false));
    assert(closing.drop_first()[0] == Lexeme::ArraySplit);
    assert(psr4_fold(closing.drop_first(), added, empty, false) == psr4_fold(rest, added, empty, false));
}

/// The map as it reads back: each directory without its trailing `/`.
pub open spec fn read_back(es: Seq<Psr4Entry>) -> Psr4Entries {
    es.map_values(|e: Psr4Entry| (e.0, strip_dirs(e.1)))
}

/// The entries section and closing of an `autoload_psr4.php` file.
pub open spec fn entries_text(es: Seq<Psr4Entry>) -> Seq<char> {
    psr4_body(es) + ");"@
}

proof fn lemma_body_prefix(es: Seq<Psr4Entry>, j: int, n: int)
    requires
        0 <= j <= n <= es.len(),
    ensures
        psr4_body(es.take(j)).len() <= psr4_body(es.take(n)).len(),
        psr4_body(es.take(n)).subrange(0, psr4_body(es.take(j)).len() as int) == psr4_body(
            es.take(j),
        ),
    decreases n - j,
{
    if j < n {
        lemma_body_prefix(es, j, n - 1);
        assert(es.take(n).drop_last() =~= es.take(n - 1));
        let a = psr4_body(es.take(n - 1));
        let whole = psr4_body(es.take(n));
        assert(whole == a + psr4_entry_text(es.take(n).last()));
        assert(whole.subrange(0, psr4_body(es.take(j)).len() as int) =~= a.subrange(
            0,
            psr4_body(es.take(j)).len() as int,
        ));
    } else {
        assert(psr4_body(es.take(n)).subrange(0, psr4_body(es.take(n)).len() as int)
            =~= psr4_body(es.take(n)));
    }
}

proof fn lemma_entry_at(es: Seq<Psr4Entry>, k: int)
    requires
        0 <= k < es.len(),
    ensures
        at(
            entries_text(es),
            psr4_body(es.take(k)).len() as int,
            psr4_entry_text(es[k]),
        ),
        psr4_body(es.take(k + 1)).len() == psr4_body(es.take(k)).len() + psr4_entry_text(
            es[k],
        ).len(),
{
    let s = entries_text(es);
    let n = es.len() as int;
    assert(es.take(n) =~= es);
    lemma_body_prefix(es, k + 1, n);
    assert(es.take(k + 1).drop_last() =~= es.take(k));
    assert(es.take(k + 1).last() == es[k]);
    let b1 = psr4_body(es.take(k + 1));
    let b0 = psr4_body(es.take(k));
    let t = psr4_entry_text(es[k]);
    assert(b1 == b0 + t);
    assert forall|i: int| 0 <= i < t.len() implies s[b0.len() + i] == #[trigger] t[i] by {
        assert(s[b0.len() + i] == psr4_body(es)[b0.len() + i]);
        assert(psr4_body(es)[b0.len() + i] == b1[b0.len() + i]);
    }
}

proof fn lemma_read_from(es: Seq<Psr4Entry>, k: int)
    requires
        0 <= k < es.len(),
        keys_unique(es),
        forall|i: int| 0 <= i < es.len() ==> entry_readable(#[trigger] es[i]),
    ensures
        psr4_fold(
            lex_from(entries_text(es), psr4_body(es.take(k)).len() as int),
            read_back(es.take(k)),
            Seq::empty(),
            false,
        ) == read_back(es),
    decreases es.len() - k,
{
    lemma_pieces();
    let s = entries_text(es);
    let n = es.len() as int;
    let p = psr4_body(es.take(k)).len() as int;
    let q = psr4_body(es.take(k + 1)).len() as int;
    lemma_entry_at(es, k);
    assert(entry_readable(es[k]));
    if k + 1 < n {
        lemma_entry_at(es, k + 1);
        assert(psr4_entry_text(es[k + 1])[0] == ' ');
        assert(s[q] == ' ');
    } else {
        assert(es.take(k + 1) =~= es);
        assert(s[q] == ')' && s[q + 1] == ';');
    }
    lemma_lex_entry(s, p, es[k]);
    let rb = read_back(es.take(k));
    assert forall|a: int, b: int| 0 <= a < b < rb.len() implies (#[trigger] rb[a]).0 != (
    #[trigger] rb[b]).0 by {
        assert(es[a].0 != es[b].0);
    }
    assert(!has_key(rb, es[k].0)) by {
        if has_key(rb, es[k].0) {
            let w = index_of_key(rb, es[k].0);
            assert(es[w].0 != es[k].0);
        }
    }
    let tail = if s[q] == ' ' {
        lex_from(s, q)
    } else {
        Seq::<Lexeme>::empty()
    };
    lemma_fold_entry(es[k], tail, rb);
    assert(rb.push((es[k].0, strip_dirs(es[k].1))) =~= read_back(es.take(k + 1)));
    if k + 1 < n {
        lemma_read_from(es, k + 1);
    } else {
        assert(read_back(es.take(k + 1)) =~= read_back(es));
    }
}

/// The entries section that the emitter writes for a map (every prefix with
/// its directory lines, then the closing `);`) reads back into the same
/// entries in the same order, each directory without its trailing `/`,
/// provided the prefixes are non-empty and distinct, every prefix has a
/// directory, and all of them consist of characters a literal may hold.
pub proof fn lemma_psr4_entries_read_back(es: Seq<Psr4Entry>)
    requires
        keys_unique(es),
        forall|i: int| 0 <= i < es.len() ==> entry_readable(#[trigger] es[i]),
    ensures
        psr4_fold(lex_from(entries_text(es), 0), Seq::empty(), Seq::empty(), false) == read_back(
            es,
        ),
{
    lemma_pieces();
    if es.len() == 0 {
        let s = entries_text(es);
        assert(s =~= seq![')', ';']);
        assert(lex_step(s, 0) == (Some(Lexeme::ArrayEnd), 1int));
        lemma_other_run(s, 1, 2);
        assert(lex_from(s, 2) == Seq::<Lexeme>::empty());
        assert(lex_from(s, 0) =~= seq![Lexeme::ArrayEnd]);
        let toks = seq![Lexeme::ArrayEnd];
        assert(toks.drop_first() =~= Seq::<Lexeme>::empty());
        let none = Seq::<(Seq<char>, Seq<(bool, Seq<char>)>)>::empty();
        assert(psr4_fold(toks, none, Seq::empty(), false) == psr4_fold(
            toks.drop_first(),
            none,
            Seq::empty(),
            false,
        ));
        assert(read_back(es) =~= none);
    } else {
        lemma_read_from(es, 0);
        assert(es.take(0) =~= Seq::<Psr4Entry>::empty());
        assert(read_back(es.take(0)) =~= Seq::<(Seq<char>, Seq<(bool, Seq<char>)>)>::empty());
    }
}


proof fn lemma_header_chars()
    ensures
        super::ser::psr4_header() == seq!['<', '?', 'p', 'h', 'p', '\n', '\n', '/', '/', ' ', 'a', 'u', 't', 'o', 'l', 'o', 'a', 'd', '_', 'p', 's', 'r', '4', '.', 'p', 'h', 'p', ' ', '@', 'g', 'e', 'n', 'e', 'r', 'a', 't', 'e', 'd', ' ', 'b', 'y', ' ', 'p', 'h', 'p', 'p', '\n', '\n', '$', 'v', 'e', 'n', 'd', 'o', 'r', 'D', 'i', 'r', ' ', '=', ' ', 'd', 'i', 'r', 'n', 'a', 'm', 'e', '(', '_', '_', 'D', 'I', 'R', '_', '_', ')', ';', '\n', '$', 'b', 'a', 's', 'e', 'D', 'i', 'r', ' ', '=', ' ', 'd', 'i', 'r', 'n', 'a', 'm', 'e', '(', '$', 'v', 'e', 'n', 'd', 'o', 'r', 'D', 'i', 'r', ')', ';', '\n', ' ', ' ', ' ', ' ', ' ', ' ', ' ', ' ', '\n', 'r', 'e', 't', 'u', 'r', 'n', ' ', 'a', 'r', 'r', 'a', 'y', '(', '\n'],
{
    reveal_strlit("<?php\n\n// autoload_psr4.php @generated by phpp\n\n$vendorDir = dirname(__DIR__);\n$baseDir = dirname($vendorDir);\n        \nreturn array(\n");
    assert(super::ser::psr4_header() =~= seq!['<', '?', 'p', 'h', 'p', '\n', '\n', '/', '/', ' ', 'a', 'u', 't', 'o', 'l', 'o', 'a', 'd', '_', 'p', 's', 'r', '4', '.', 'p', 'h', 'p', ' ', '@', 'g', 'e', 'n', 'e', 'r', 'a', 't', 'e', 'd', ' ', 'b', 'y', ' ', 'p', 'h', 'p', 'p', '\n', '\n', '$', 'v', 'e', 'n', 'd', 'o', 'r', 'D', 'i', 'r', ' ', '=', ' ', 'd', 'i', 'r', 'n', 'a', 'm', 'e', '(', '_', '_', 'D', 'I', 'R', '_', '_', ')', ';', '\n', '$', 'b', 'a', 's', 'e', 'D', 'i', 'r', ' ', '=', ' ', 'd', 'i', 'r', 'n', 'a', 'm', 'e', '(', '$', 'v', 'e', 'n', 'd', 'o', 'r', 'D', 'i', 'r', ')', ';', '\n', ' ', ' ', ' ', ' ', ' ', ' ', ' ', ' ', '\n', 'r', 'e', 't', 'u', 'r', 'n', ' ', 'a', 'r', 'r', 'a', 'y', '(', '\n']);
}

/// The tokens of the file header that the parser reads.
pub open spec fn header_toks() -> Seq<Lexeme> {
    seq![
        Lexeme::VendorDir,
        Lexeme::BaseDir,
        Lexeme::VendorDir,
        Lexeme::ArrayEnd,
        Lexeme::Return,
        Lexeme::ArrayStart,
    ]
}

#[verifier::rlimit(80)]
proof fn lemma_lex_header(s: Seq<char>)
    requires
        at(s, 0, super::ser::psr4_header()),
        entry_follow(s, 134),
    ensures
        lex_from(s, 0) == header_toks() + (if s[134] == ' ' {
            lex_from(s, 134)
        } else {
            Seq::<Lexeme>::empty()
        }),
{
    lemma_header_chars();
    let h = super::ser::psr4_header();
    assert(h.len() == 134);
    assert forall|i: int| 0 <= i < 134 implies s[i] == #[trigger] h[i] by {}
    lemma_other_run(s, 0, 9);
    lemma_space_run(s, 9, 10);
    assert(lex_step(s, 10) == (Some(Lexeme::Other), 11int));
    assert(lex_from(s, 10) == lex_from(s, 11));
    lemma_other_run(s, 11, 16);
    assert(lex_step(s, 16) == (Some(Lexeme::Other), 17int));
    assert(lex_from(s, 16) == lex_from(s, 17));
    lemma_other_run(s, 17, 21);
    assert(lex_step(s, 21) == (Some(Lexeme::Other), 22int));
    assert(lex_from(s, 21) == lex_from(s, 22));
    lemma_other_run(s, 22, 23);
    assert(lex_step(s, 23) == (Some(Lexeme::Dot), 24int));
    assert(lex_from(s, 23) == lex_from(s, 24));
    lemma_other_run(s, 24, 27);
    lemma_space_run(s, 27, 28);
    lemma_other_run(s, 28, 33);
    assert(lex_step(s, 33) == (Some(Lexeme::Other), 34int));
    assert(lex_from(s, 33) == lex_from(s, 34));
    assert(lex_step(s, 34) == (Some(Lexeme::Other), 35int));
    assert(lex_from(s, 34) == lex_from(s, 35));
    lemma_other_run(s, 35, 38);
    lemma_space_run(s, 38, 39);
    lemma_other_run(s, 39, 41);
    lemma_space_run(s, 41, 42);
    lemma_other_run(s, 42, 48);
    assert(lex_step(s, 48) == (Some(Lexeme::VendorDir), 58int));
    assert(lex_from(s, 48) == seq![Lexeme::VendorDir] + lex_from(s, 58));
    lemma_space_run(s, 58, 59);
    assert(lex_step(s, 59) == (Some(Lexeme::Other), 60int));
    assert(lex_from(s, 59) == lex_from(s, 60));
    lemma_space_run(s, 60, 61);
    lemma_other_run(s, 61, 63);
    assert(lex_step(s, 63) == (Some(Lexeme::Other), 64int));
    assert(lex_from(s, 63) == lex_from(s, 64));
    lemma_other_run(s, 64, 65);
    assert(lex_step(s, 65) == (Some(Lexeme::Other), 66int));
    assert(lex_from(s, 65) == lex_from(s, 66));
    lemma_other_run(s, 66, 79);
    assert(lex_step(s, 79) == (Some(Lexeme::BaseDir), 87int));
    assert(lex_from(s, 79) == seq![Lexeme::BaseDir] + lex_from(s, 87));
    lemma_space_run(s, 87, 88);
    assert(lex_step(s, 88) == (Some(Lexeme::Other), 89int));
    assert(lex_from(s, 88) == lex_from(s, 89));
    lemma_space_run(s, 89, 90);
    lemma_other_run(s, 90, 92);
    assert(lex_step(s, 92) == (Some(Lexeme::Other), 93int));
    assert(lex_from(s, 92) == lex_from(s, 93));
    lemma_other_run(s, 93, 94);
    assert(lex_step(s, 94) == (Some(Lexeme::Other), 95int));
    assert(lex_from(s, 94) == lex_from(s, 95));
    lemma_other_run(s, 95, 98);
    assert(lex_step(s, 98) == (Some(Lexeme::VendorDir), 108int));
    assert(lex_from(s, 98) == seq![Lexeme::VendorDir] + lex_from(s, 108));
    assert(lex_step(s, 108) == (Some(Lexeme::ArrayEnd), 109int));
    assert(lex_from(s, 108) == seq![Lexeme::ArrayEnd] + lex_from(s, 109));
    lemma_other_run(s, 109, 111);
    lemma_space_run(s, 111, 119);
    lemma_other_run(s, 119, 120);
    assert(lex_step(s, 120) == (Some(Lexeme::Return), 126int));
    assert(lex_from(s, 120) == seq![Lexeme::Return] + lex_from(s, 126));
    lemma_space_run(s, 126, 127);
    assert(lex_step(s, 127) == (Some(Lexeme::ArrayStart), 133int));
    assert(lex_from(s, 127) == seq![Lexeme::ArrayStart] + lex_from(s, 133));
    if s[134] == ' ' {
        lemma_other_run(s, 133, 134);
    } else {
        lemma_other_run(s, 133, s.len() as int);
        assert(lex_from(s, s.len() as int) == Seq::<Lexeme>::empty());
    }
    let tail = if s[134] == ' ' {
        lex_from(s, 134)
    } else {
        Seq::<Lexeme>::empty()
    };
    assert(lex_from(s, 0) =~= header_toks() + tail);
}


proof fn lemma_shift_scans(h: Seq<char>, t: Seq<char>, q: int)
    requires
        0 <= q <= t.len(),
    ensures
        scan_spaces(h + t, h.len() + q) == h.len() + scan_spaces(t, q),
        scan_other(h + t, h.len() + q) == h.len() + scan_other(t, q),
        super::de::scan_literal(h + t, h.len() + q) == h.len() + super::de::scan_literal(t, q),
    decreases t.len() - q,
{
    if q < t.len() {
        lemma_shift_scans(h, t, q + 1);
        assert((h + t)[h.len() + q] == t[q]);
    }
}

proof fn lemma_shift_step(h: Seq<char>, t: Seq<char>, x: int)
    requires
        0 <= x <= t.len(),
    ensures
        lex_step(h + t, h.len() + x).0 == lex_step(t, x).0,
        lex_step(h + t, h.len() + x).1 == h.len() + lex_step(t, x).1,
{
    let s = h + t;
    let p = h.len() + x;
    if x < t.len() {
        assert(s[p] == t[x]);
        if x + 1 < t.len() {
            assert(s[p + 1] == t[x + 1]);
        }
        lemma_shift_scans(h, t, x + 1);
        let q = super::de::scan_literal(t, x + 1);
        super::de::lemma_scans(t, x + 1);
        if q < t.len() {
            assert(s[h.len() + q] == t[q]);
        }
        assert(s.subrange(p + 1, h.len() + q) =~= t.subrange(x + 1, q));
    }
}

proof fn lemma_shift_from(h: Seq<char>, t: Seq<char>, x: int)
    requires
        0 <= x <= t.len(),
    ensures
        lex_from(h + t, h.len() + x) == lex_from(t, x),
    decreases t.len() - x,
{
    lemma_shift_step(h, t, x);
    super::de::lemma_lex_step_progress(t, x);
    let (tok, q) = lex_step(t, x);
    if tok is Some && x < q && q <= t.len() {
        lemma_shift_from(h, t, q);
    }
}

/// The whole `autoload_psr4.php` text for entries written in this order.
pub open spec fn file_text(es: Seq<Psr4Entry>) -> Seq<char> {
    super::ser::psr4_header() + entries_text(es)
}

/// An `autoload_psr4.php` file that the emitter writes for entries in this
/// order reads back into the same entries in the same order, each directory
/// without its trailing `/`, provided the prefixes are non-empty and
/// distinct, every prefix has a directory, and all of them consist of
/// characters a literal may hold.
pub proof fn lemma_psr4_file_read_back(es: Seq<Psr4Entry>)
    requires
        keys_unique(es),
        forall|i: int| 0 <= i < es.len() ==> entry_readable(#[trigger] es[i]),
    ensures
        psr4_fold(lex_from(file_text(es), 0), Seq::empty(), Seq::empty(), false) == read_back(es),
{
    lemma_pieces();
    lemma_header_chars();
    let h = super::ser::psr4_header();
    let e = entries_text(es);
    let s = file_text(es);
    assert(h.len() == 134);
    assert forall|i: int| 0 <= i < h.len() implies s[i] == #[trigger] h[i] by {}
    if es.len() > 0 {
        lemma_entry_at(es, 0);
        assert(es.take(0) =~= Seq::<Psr4Entry>::empty());
        assert(psr4_entry_text(es[0])[0] == ' ');
        assert(e[0] == ' ');
        assert(s[134] == e[0]);
    } else {
        assert(e =~= seq![')', ';']);
        assert(s[134] == ')' && s[135] == ';');
    }
    lemma_lex_header(s);
    lemma_psr4_entries_read_back(es);
    let none = Seq::<(Seq<char>, Seq<(bool, Seq<char>)>)>::empty();
    let empty = Seq::<char>::empty();
    let tail = if s[134] == ' ' {
        lex_from(s, 134)
    } else {
        Seq::<Lexeme>::empty()
    };
    let t = header_toks() + tail;
    assert(t.drop_first() =~= seq![Lexeme::BaseDir, Lexeme::VendorDir, Lexeme::ArrayEnd, Lexeme::Return, Lexeme::ArrayStart] + tail);
    let t1 = t.drop_first();
    assert(t1.drop_first() =~= seq![Lexeme::VendorDir, Lexeme::ArrayEnd, Lexeme::Return, Lexeme::ArrayStart] + tail);
    let t2 = t1.drop_first();
    assert(t2.drop_first() =~= seq![Lexeme::ArrayEnd, Lexeme::Return, Lexeme::ArrayStart] + tail);
    let t3 = t2.drop_first();
    assert(t3.drop_first() =~= seq![Lexeme::Return, Lexeme::ArrayStart] + tail);
    let t4 = t3.drop_first();
    assert(t4.drop_first() =~= seq![Lexeme::ArrayStart] + tail);
    let t5 = t4.drop_first();
    assert(t5.drop_first() =~= tail);
    assert(psr4_fold(t, none, empty, false) == psr4_fold(t1, none, empty, true));
    assert(psr4_fold(t1, none, empty, true) == psr4_fold(t2, none, empty, false));
    assert(psr4_fold(t2, none, empty, false) == psr4_fold(t3, none, empty, true));
    assert(psr4_fold(t3, none, empty, true) == psr4_fold(t4, none, empty, false));
    assert(psr4_fold(t4, none, empty, false) == psr4_fold(t5, none, empty, false));
    assert(psr4_fold(t5, none, empty, false) == psr4_fold(tail, none, empty, false));
    if es.len() > 0 {
        lemma_shift_from(h, e, 0);
        assert(s == h + e);
    } else {
        assert(read_back(es) =~= none);
    }
}


proof fn lemma_insert_desc_members(s: Seq<Psr4Entry>, x: Psr4Entry)
    ensures
        super::ser::insert_desc(s, x).len() == s.len() + 1,
        forall|i: int|
            0 <= i < s.len() + 1 ==> (#[trigger] super::ser::insert_desc(s, x)[i] == x
                || s.contains(super::ser::insert_desc(s, x)[i])),
    decreases s.len(),
{
    let r = super::ser::insert_desc(s, x);
    if s.len() > 0 && crate::package::name_le(x.0, s[0].0) {
        let t = s.drop_first();
        lemma_insert_desc_members(t, x);
        assert forall|i: int| 0 <= i < s.len() + 1 implies (#[trigger] r[i] == x || s.contains(
            r[i],
        )) by {
            if i == 0 {
                assert(s.contains(s[0]));
            } else {
                let y = super::ser::insert_desc(t, x)[i - 1];
                assert(r[i] == y);
                if y != x {
                    let j = choose|j: int| 0 <= j < t.len() && t[j] == y;
                    assert(s[j + 1] == y);
                }
            }
        }
    } else if s.len() > 0 {
        assert forall|i: int| 0 <= i < s.len() + 1 implies (#[trigger] r[i] == x || s.contains(
            r[i],
        )) by {
            if i > 0 {
                assert(r[i] == s[i - 1]);
            }
        }
    }
}

proof fn lemma_sort_desc_members(es: Seq<Psr4Entry>)
    ensures
        super::ser::sort_desc(es).len() == es.len(),
        forall|i: int|
            0 <= i < es.len() ==> es.contains(#[trigger] super::ser::sort_desc(es)[i]),
    decreases es.len(),
{
    if es.len() > 0 {
        let front = es.drop_last();
        lemma_sort_desc_members(front);
        let sf = super::ser::sort_desc(front);
        lemma_insert_desc_members(sf, es.last());
        assert forall|i: int| 0 <= i < es.len() implies es.contains(
            #[trigger] super::ser::sort_desc(es)[i],
        ) by {
            let y = super::ser::sort_desc(es)[i];
            if y == es.last() {
                assert(es[es.len() - 1] == y);
            } else {
                let j = choose|j: int| 0 <= j < sf.len() && sf[j] == y;
                assert(front.contains(sf[j]));
                let m = choose|m: int| 0 <= m < front.len() && front[m] == y;
                assert(es[m] == y);
            }
        }
    }
}

proof fn lemma_sort_desc_unique(es: Seq<Psr4Entry>)
    requires
        keys_unique(es),
    ensures
        keys_unique(super::ser::sort_desc(es)),
    decreases es.len(),
{
    if es.len() > 0 {
        let front = es.drop_last();
        let x = es.last();
        assert forall|a: int, b: int| 0 <= a < b < front.len() implies (#[trigger] front[a]).0 != (
        #[trigger] front[b]).0 by {
            assert(es[a].0 != es[b].0);
        }
        lemma_sort_desc_unique(front);
        lemma_sort_desc_members(front);
        let sf = super::ser::sort_desc(front);
        assert forall|j: int| 0 <= j < sf.len() implies (#[trigger] sf[j]).0 != x.0 by {
            assert(front.contains(sf[j]));
            let m = choose|m: int| 0 <= m < front.len() && front[m] == sf[j];
            assert(es[m].0 != es[es.len() - 1].0);
        }
        lemma_insert_desc_unique(sf, x);
    }
}

proof fn lemma_insert_desc_unique(s: Seq<Psr4Entry>, x: Psr4Entry)
    requires
        keys_unique(s),
        forall|j: int| 0 <= j < s.len() ==> (#[trigger] s[j]).0 != x.0,
    ensures
        keys_unique(super::ser::insert_desc(s, x)),
    decreases s.len(),
{
    let r = super::ser::insert_desc(s, x);
    lemma_insert_desc_members(s, x);
    if s.len() > 0 && crate::package::name_le(x.0, s[0].0) {
        let t = s.drop_first();
        assert forall|a: int, b: int| 0 <= a < b < t.len() implies (#[trigger] t[a]).0 != (
        #[trigger] t[b]).0 by {
            assert(s[a + 1].0 != s[b + 1].0);
        }
        assert forall|j: int| 0 <= j < t.len() implies (#[trigger] t[j]).0 != x.0 by {
            assert(t[j] == s[j + 1]);
        }
        lemma_insert_desc_unique(t, x);
        lemma_insert_desc_members(t, x);
        let rt = super::ser::insert_desc(t, x);
        assert forall|a: int, b: int| 0 <= a < b < r.len() implies (#[trigger] r[a]).0 != (
        #[trigger] r[b]).0 by {
            if a == 0 {
                let y = rt[b - 1];
                assert(r[b] == y);
                if y != x {
                    let j = choose|j: int| 0 <= j < t.len() && t[j] == y;
                    assert(s[0].0 != s[j + 1].0);
                }
            } else {
                assert(r[a] == rt[a - 1] && r[b] == rt[b - 1]);
            }
        }
    } else if s.len() > 0 {
        assert forall|a: int, b: int| 0 <= a < b < r.len() implies (#[trigger] r[a]).0 != (
        #[trigger] r[b]).0 by {
            if a == 0 {
                assert(r[b] == s[b - 1]);
            } else {
                assert(r[a] == s[a - 1] && r[b] == s[b - 1]);
            }
        }
    }
}

/// Parsing the `autoload_psr4.php` text that the emitter writes for a map
/// gives back the map's entries, in the order the file lists them (prefixes
/// descending), each directory without its trailing `/`, provided the
/// prefixes are non-empty and distinct, every prefix has a directory, and all
/// of them consist of characters a literal may hold.
pub proof fn lemma_psr4_write_read_back(d: Psr4Entries)
    requires
        keys_unique(d),
        forall|i: int| 0 <= i < d.len() ==> entry_readable(#[trigger] d[i]),
    ensures
        psr4_fold(lex_from(super::ser::psr4_file(d), 0), Seq::empty(), Seq::empty(), false)
            == read_back(super::ser::sort_desc(d)),
{
    let es = super::ser::sort_desc(d);
    lemma_sort_desc_unique(d);
    lemma_sort_desc_members(d);
    assert forall|i: int| 0 <= i < es.len() implies entry_readable(#[trigger] es[i]) by {
        assert(d.contains(es[i]));
        let m = choose|m: int| 0 <= m < d.len() && d[m] == es[i];
        assert(entry_readable(d[m]));
    }
    lemma_psr4_file_read_back(es);
    assert(super::ser::psr4_file(d) =~= file_text(es));
}

} // verus!
