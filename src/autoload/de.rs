//! Reading back generated loader files: a scanner over the small part of PHP
//! that the emitter writes, and the folds that rebuild the maps from its tokens.
use vstd::prelude::*;

use super::{with_dir, with_file, FilesData, FilesEntries, Psr4Data, Psr4Entries};
use crate::text::{from_chars, replace_all, replace_exec, subrange_chars, to_chars};

verus! {

/// A token of a generated loader file.
#[derive(Debug, Clone, PartialEq, Eq)]
pub enum Token {
    Return,
    Space,
    ArrayStart,
    ArrayEnd,
    ArraySplit,
    Literal(String),
    VendorDir,
    BaseDir,
    Arrow,
    Dot,
    Other,
}

/// What a token stands for, with a literal's text as a sequence.
pub enum Lexeme {
    Return,
    Space,
    ArrayStart,
    ArrayEnd,
    ArraySplit,
    Literal(Seq<char>),
    VendorDir,
    BaseDir,
    Arrow,
    Dot,
    Other,
}

impl Token {
    pub open spec fn lexeme(&self) -> Lexeme {
        match self {
            Token::Return => Lexeme::Return,
            Token::Space => Lexeme::Space,
            Token::ArrayStart => Lexeme::ArrayStart,
            Token::ArrayEnd => Lexeme::ArrayEnd,
            Token::ArraySplit => Lexeme::ArraySplit,
            Token::Literal(s) => Lexeme::Literal(s@),
            Token::VendorDir => Lexeme::VendorDir,
            Token::BaseDir => Lexeme::BaseDir,
            Token::Arrow => Lexeme::Arrow,
            Token::Dot => Lexeme::Dot,
            Token::Other => Lexeme::Other,
        }
    }
}

pub open spec fn opt_lexeme(t: Option<Token>) -> Option<Lexeme> {
    match t {
        Some(t) => Some(t.lexeme()),
        None => None,
    }
}

/// The characters a quoted literal may hold.
pub open spec fn literal_char(c: char) -> bool {
    ('a' <= c && c <= 'z') || ('A' <= c && c <= 'Z') || ('0' <= c && c <= '9') || c == '-' || c
        == '\\' || c == '/' || c == '.' || c == '_'
}

/// The characters that end a run of unrecognized input.
pub open spec fn stop_char(c: char) -> bool {
    c == 'r' || c == ' ' || c == 'a' || c == '\'' || c == '=' || c == '$' || c == '.' || c == ','
}

/// The end of the run of spaces starting at `q`.
pub open spec fn scan_spaces(s: Seq<char>, q: int) -> int
    decreases s.len() - q,
{
    if 0 <= q < s.len() && s[q] == ' ' {
        scan_spaces(s, q + 1)
    } else {
        q
    }
}

/// The end of the run of literal characters starting at `q`.
pub open spec fn scan_literal(s: Seq<char>, q: int) -> int
    decreases s.len() - q,
{
    if 0 <= q < s.len() && literal_char(s[q]) {
        scan_literal(s, q + 1)
    } else {
        q
    }
}

/// The end of the run of characters starting at `q` that are no stop characters.
pub open spec fn scan_other(s: Seq<char>, q: int) -> int
    decreases s.len() - q,
{
    if 0 <= q < s.len() && !stop_char(s[q]) {
        scan_other(s, q + 1)
    } else {
        q
    }
}

/// A keyword of `n` characters at `p`: the token, or nothing and the end of
/// the input where fewer characters are left.
pub open spec fn word(s: Seq<char>, p: int, n: int, t: Lexeme) -> (Option<Lexeme>, int) {
    if p + n <= s.len() {
        (Some(t), p + n)
    } else {
        (None, s.len() as int)
    }
}

/// The token at position `p` of `s`, and the position after it. A keyword is
/// recognized by its first two characters (`re`turn, `ar`ray, `$v`endorDir,
/// `$b`aseDir); a quoted literal that is not closed gives no token.
pub open spec fn lex_step(s: Seq<char>, p: int) -> (Option<Lexeme>, int) {
    if p < 0 || p >= s.len() {
        (None, p)
    } else {
        let c = s[p];
        if c == 'r' {
            if p + 1 >= s.len() {
                (None, p + 1)
            } else if s[p + 1] == 'e' {
                word(s, p, 6, Lexeme::Return)
            } else {
                (Some(Lexeme::Other), p + 1)
            }
        } else if c == ' ' {
            (Some(Lexeme::Space), scan_spaces(s, p + 1))
        } else if c == 'a' {
            if p + 1 >= s.len() {
                (None, p + 1)
            } else if s[p + 1] == 'r' {
                word(s, p, 6, Lexeme::ArrayStart)
            } else {
                (Some(Lexeme::Other), p + 1)
            }
        } else if c == '\'' {
            let q = scan_literal(s, p + 1);
            if q < s.len() && s[q] == '\'' {
                (Some(Lexeme::Literal(s.subrange(p + 1, q))), q + 1)
            } else {
                (None, q)
            }
        } else if c == '=' {
            if p + 1 >= s.len() {
                (None, p + 1)
            } else if s[p + 1] == '>' {
                (Some(Lexeme::Arrow), p + 2)
            } else {
                (Some(Lexeme::Other), p + 1)
            }
        } else if c == '$' {
            if p + 1 >= s.len() {
                (None, p + 1)
            } else if s[p + 1] == 'v' {
                word(s, p, 10, Lexeme::VendorDir)
            } else if s[p + 1] == 'b' {
                word(s, p, 8, Lexeme::BaseDir)
            } else {
                (Some(Lexeme::Other), p + 1)
            }
        } else if c == '.' {
            (Some(Lexeme::Dot), p + 1)
        } else if c == ',' {
            (Some(Lexeme::ArraySplit), p + 1)
        } else if c == ')' {
            (Some(Lexeme::ArrayEnd), p + 1)
        } else {
            (Some(Lexeme::Other), scan_other(s, p + 1))
        }
    }
}

pub proof fn lemma_scans(s: Seq<char>, q: int)
    requires
        0 <= q <= s.len(),
    ensures
        q <= scan_spaces(s, q) <= s.len(),
        q <= scan_literal(s, q) <= s.len(),
        q <= scan_other(s, q) <= s.len(),
    decreases s.len() - q,
{
    if q < s.len() {
        lemma_scans(s, q + 1);
    }
}

/// A token always moves forward, and never past the end.
pub proof fn lemma_lex_step_progress(s: Seq<char>, p: int)
    requires
        0 <= p <= s.len(),
    ensures
        p <= lex_step(s, p).1 <= s.len(),
        lex_step(s, p).0 is Some ==> p < lex_step(s, p).1,
{
    if p < s.len() {
        lemma_scans(s, p + 1);
    }
}

/// Tokens the parsers pass over.
pub open spec fn skipped(t: Lexeme) -> bool {
    t is Other || t is Space || t is Dot
}

/// The tokens of `s` from position `p` on, up to the first position that gives
/// none, without the skipped ones.
pub open spec fn lex_from(s: Seq<char>, p: int) -> Seq<Lexeme>
    decreases s.len() - p,
{
    let (t, q) = lex_step(s, p);
    match t {
        None => Seq::empty(),
        Some(t) => if p < 0 || q <= p || q > s.len() {
            Seq::empty()
        } else if skipped(t) {
            lex_from(s, q)
        } else {
            seq![t] + lex_from(s, q)
        },
    }
}

/// A literal with its doubled backslashes made single.
pub open spec fn unescape(s: Seq<char>) -> Seq<char> {
    replace_all(s, seq!['\\', '\\'], seq!['\\'])
}

/// The PSR-4 map rebuilt from tokens: a literal met without a current prefix
/// becomes the prefix; a literal met with one is a directory of it, relative
/// to the vendor directory where `$vendorDir` came last; `)` ends the prefix.
pub open spec fn psr4_fold(t: Seq<Lexeme>, e: Psr4Entries, key: Seq<char>, is_vendor: bool) -> Psr4Entries
    decreases t.len(),
{
    if t.len() == 0 {
        e
    } else {
        let rest = t.drop_first();
        match t[0] {
            Lexeme::Literal(lit) => if key.len() == 0 {
                psr4_fold(rest, e, unescape(lit), is_vendor)
            } else {
                psr4_fold(rest, with_dir(e, key, (is_vendor, lit), false), key, is_vendor)
            },
            Lexeme::VendorDir => psr4_fold(rest, e, key, true),
            Lexeme::BaseDir => psr4_fold(rest, e, key, false),
            Lexeme::ArrayEnd => psr4_fold(rest, e, Seq::empty(), false),
            _ => psr4_fold(rest, e, key, is_vendor),
        }
    }
}

/// The files map rebuilt from tokens: a literal met without a current key
/// becomes the key; a literal met with one is its path; `,` ends the key.
pub open spec fn files_fold(t: Seq<Lexeme>, e: FilesEntries, key: Seq<char>, is_vendor: bool) -> FilesEntries
    decreases t.len(),
{
    if t.len() == 0 {
        e
    } else {
        let rest = t.drop_first();
        match t[0] {
            Lexeme::Literal(lit) => if key.len() == 0 {
                files_fold(rest, e, lit, is_vendor)
            } else {
                files_fold(rest, with_file(e, key, (is_vendor, lit)), key, is_vendor)
            },
            Lexeme::VendorDir => files_fold(rest, e, key, true),
            Lexeme::BaseDir => files_fold(rest, e, key, false),
            Lexeme::ArraySplit => files_fold(rest, e, Seq::empty(), false),
            _ => files_fold(rest, e, key, is_vendor),
        }
    }
}

/// A position in a text being scanned.
#[derive(Clone)]
pub struct Cursor {
    chars: Vec<char>,
    pos: usize,
}

fn is_literal_char(c: char) -> (r: bool)
    ensures
        r == literal_char(c),
{
    ('a' <= c && c <= 'z') || ('A' <= c && c <= 'Z') || ('0' <= c && c <= '9') || c == '-' || c
        == '\\' || c == '/' || c == '.' || c == '_'
}

fn is_stop_char(c: char) -> (r: bool)
    ensures
        r == stop_char(c),
{
    c == 'r' || c == ' ' || c == 'a' || c == '\'' || c == '=' || c == '$' || c == '.' || c == ','
}

impl Cursor {
    pub closed spec fn text(&self) -> Seq<char> {
        self.chars@
    }

    pub closed spec fn position(&self) -> int {
        self.pos as int
    }

    pub closed spec fn wf(&self) -> bool {
        self.pos <= self.chars.len()
    }

    /// A cursor at the start of `source`.
    pub fn new(source: &str) -> (r: Self)
        ensures
            r.wf(),
            r.text() == source@,
            r.position() == 0,
    {
        Cursor { chars: to_chars(source), pos: 0 }
    }

    /// Moves `n` characters on, or to the end where fewer are left; `t` where
    /// all `n` were there.
    fn take_word(&mut self, n: usize, t: Token) -> (r: Option<Token>)
        requires
            old(self).wf(),
        ensures
            final(self).wf(),
            final(self).chars@ == old(self).chars@,
            old(self).pos + n <= old(self).chars.len() ==> r == Some(t) && final(self).pos
                == old(self).pos + n,
            old(self).pos + n > old(self).chars.len() ==> r is None && final(self).pos
                == old(self).chars.len(),
    {
        if self.chars.len() - self.pos >= n {
            self.pos = self.pos + n;
            Some(t)
        } else {
            self.pos = self.chars.len();
            None
        }
    }

    /// The next token, or `None` at the end of the text or where it cannot be read.
    pub fn advance(&mut self) -> (r: Option<Token>)
        requires
            old(self).wf(),
        ensures
            final(self).wf(),
            final(self).text() == old(self).text(),
            lex_step(old(self).text(), old(self).position()) == (
                opt_lexeme(r),
                final(self).position(),
            ),
    {
        let len = self.chars.len();
        let p = self.pos;
        if p >= len {
            return None;
        }
        let ghost s = self.chars@;
        let c = self.chars[p];
        self.pos = p + 1;
        if c == 'r' {
            if p + 1 >= len {
                return None;
            }
            if self.chars[p + 1] == 'e' {
                self.pos = p;
                self.take_word(6, Token::Return)
            } else {
                Some(Token::Other)
            }
        } else if c == ' ' {
            let mut q = p + 1;
            while q < len && self.chars[q] == ' '
                invariant
                    p < q <= len,
                    len == self.chars.len(),
                    s == self.chars@,
                    scan_spaces(s, p + 1) == scan_spaces(s, q as int),
                decreases len - q,
            {
                q = q + 1;
            }
            self.pos = q;
            Some(Token::Space)
        } else if c == 'a' {
            if p + 1 >= len {
                return None;
            }
            if self.chars[p + 1] == 'r' {
                self.pos = p;
                self.take_word(6, Token::ArrayStart)
            } else {
                Some(Token::Other)
            }
        } else if c == '\'' {
            let mut q = p + 1;
            while q < len && is_literal_char(self.chars[q])
                invariant
                    p < q <= len,
                    len == self.chars.len(),
                    s == self.chars@,
                    scan_literal(s, p + 1) == scan_literal(s, q as int),
                decreases len - q,
            {
                q = q + 1;
            }
            if q < len && self.chars[q] == '\'' {
                let name = subrange_chars(&self.chars, p + 1, q);
                self.pos = q + 1;
                Some(Token::Literal(from_chars(&name)))
            } else {
                self.pos = q;
                None
            }
        } else if c == '=' {
            if p + 1 >= len {
                return None;
            }
            if self.chars[p + 1] == '>' {
                self.pos = p + 2;
                Some(Token::Arrow)
            } else {
                Some(Token::Other)
            }
        } else if c == '$' {
            if p + 1 >= len {
                return None;
            }
            if self.chars[p + 1] == 'v' {
                self.pos = p;
                self.take_word(10, Token::VendorDir)
            } else if self.chars[p + 1] == 'b' {
                self.pos = p;
                self.take_word(8, Token::BaseDir)
            } else {
                Some(Token::Other)
            }
        } else if c == '.' {
            Some(Token::Dot)
        } else if c == ',' {
            Some(Token::ArraySplit)
        } else if c == ')' {
            Some(Token::ArrayEnd)
        } else {
            let mut q = p + 1;
            while q < len && !is_stop_char(self.chars[q])
                invariant
                    p < q <= len,
                    len == self.chars.len(),
                    s == self.chars@,
                    scan_other(s, p + 1) == scan_other(s, q as int),
                decreases len - q,
            {
                q = q + 1;
            }
            self.pos = q;
            Some(Token::Other)
        }
    }
}

pub open spec fn lexemes(t: Seq<Token>) -> Seq<Lexeme> {
    t.map_values(|x: Token| x.lexeme())
}

/// The tokens of `text` that the parsers read.
pub fn tokens_of(text: &str) -> (r: Vec<Token>)
    ensures
        lexemes(r@) == lex_from(text@, 0),
{
    let mut cursor = Cursor::new(text);
    let mut tokens: Vec<Token> = Vec::new();
    let ghost s = text@;
    assert(lexemes(tokens@) + lex_from(s, 0) =~= lex_from(s, 0));
    loop
        invariant
            cursor.wf(),
            s == text@,
            cursor.text() == s,
            0 <= cursor.position() <= s.len(),
            lex_from(s, 0) == lexemes(tokens@) + lex_from(s, cursor.position()),
        decreases s.len() - cursor.position(),
    {
        let ghost p = cursor.position();
        proof {
            lemma_lex_step_progress(s, p);
        }
        let t = cursor.advance();
        match t {
            None => {
                assert(lex_from(s, p) == Seq::<Lexeme>::empty());
                assert(lexemes(tokens@) + Seq::<Lexeme>::empty() =~= lexemes(tokens@));
                assert(lex_from(s, 0) == lexemes(tokens@));
                return tokens;
            },
            Some(tok) => {
                let ghost l = tok.lexeme();
                let ghost before = tokens@;
                let keep = match tok {
                    Token::Other | Token::Space | Token::Dot => false,
                    _ => true,
                };
                assert(keep == !skipped(l));
                if keep {
                    tokens.push(tok);
                    assert(lexemes(tokens@) =~= lexemes(before).push(l));
                    assert(lexemes(before) + lex_from(s, p) =~= lexemes(tokens@) + lex_from(
                        s,
                        cursor.position(),
                    ));
                }
            },
        }
    }
}

proof fn lemma_psr4_fold_step(t: Seq<Lexeme>, i: int, e: Psr4Entries, key: Seq<char>, v: bool)
    requires
        0 <= i < t.len(),
    ensures
        t.skip(i).drop_first() == t.skip(i + 1),
        t.skip(i)[0] == t[i],
{
    assert(t.skip(i).drop_first() =~= t.skip(i + 1));
}

impl Psr4Data {
    /// The PSR-4 map written in `text`, an `autoload_psr4.php` file.
    pub fn parse(text: &str) -> (r: Self)
        ensures
            r.wf(),
            r@ == psr4_fold(lex_from(text@, 0), Seq::empty(), Seq::empty(), false),
    {
        let tokens = tokens_of(text);
        let ghost t = lexemes(tokens@);
        let mut this = Psr4Data::empty();
        let mut key: Vec<char> = Vec::new();
        let mut is_vendor = false;
        let backslashes = vec!['\\', '\\'];
        let backslash = vec!['\\'];
        assert(backslashes@ =~= seq!['\\', '\\']);
        assert(backslash@ =~= seq!['\\']);
        let mut i: usize = 0;
        assert(t.skip(0) =~= t);
        assert(this@ =~= Seq::empty());
        assert(key@ =~= Seq::<char>::empty());
        while i < tokens.len()
            invariant
                i <= tokens.len(),
                t == lexemes(tokens@),
                this.wf(),
                backslashes@ == seq!['\\', '\\'],
                backslash@ == seq!['\\'],
                psr4_fold(t, Seq::empty(), Seq::empty(), false) == psr4_fold(
                    t.skip(i as int),
                    this@,
                    key@,
                    is_vendor,
                ),
            decreases tokens.len() - i,
        {
            proof {
                lemma_psr4_fold_step(t, i as int, this@, key@, is_vendor);
            }
            match &tokens[i] {
                Token::Literal(lit) => {
                    if key.len() == 0 {
                        key = replace_exec(&to_chars(lit.as_str()), &backslashes, &backslash);
                    } else {
                        this.push_dir(&from_chars(&key), (is_vendor, lit.clone()), false);
                    }
                },
                Token::VendorDir => {
                    is_vendor = true;
                },
                Token::BaseDir => {
                    is_vendor = false;
                },
                Token::ArrayEnd => {
                    key = Vec::new();
                    is_vendor = false;
                    assert(key@ =~= Seq::<char>::empty());
                },
                _ => {},
            }
            i = i + 1;
        }
        this
    }
}

proof fn lemma_files_fold_step(t: Seq<Lexeme>, i: int)
    requires
        0 <= i < t.len(),
    ensures
        t.skip(i).drop_first() == t.skip(i + 1),
        t.skip(i)[0] == t[i],
{
    assert(t.skip(i).drop_first() =~= t.skip(i + 1));
}

impl FilesData {
    /// The files map written in `text`, an `autoload_files.php` file.
    pub fn parse(text: &str) -> (r: Self)
        ensures
            r.wf(),
            r@ == files_fold(lex_from(text@, 0), Seq::empty(), Seq::empty(), false),
    {
        let tokens = tokens_of(text);
        let ghost t = lexemes(tokens@);
        let mut this = FilesData::empty();
        let mut key: Vec<char> = Vec::new();
        let mut is_vendor = false;
        let mut i: usize = 0;
        assert(t.skip(0) =~= t);
        assert(this@ =~= Seq::empty());
        assert(key@ =~= Seq::<char>::empty());
        while i < tokens.len()
            invariant
                i <= tokens.len(),
                t == lexemes(tokens@),
                this.wf(),
                files_fold(t, Seq::empty(), Seq::empty(), false) == files_fold(
                    t.skip(i as int),
                    this@,
                    key@,
                    is_vendor,
                ),
            decreases tokens.len() - i,
        {
            proof {
                lemma_files_fold_step(t, i as int);
            }
            match &tokens[i] {
                Token::Literal(lit) => {
                    if key.len() == 0 {
                        key = to_chars(lit.as_str());
                    } else {
                        this.put(from_chars(&key), (is_vendor, lit.clone()));
                    }
                },
                Token::VendorDir => {
                    is_vendor = true;
                },
                Token::BaseDir => {
                    is_vendor = false;
                },
                Token::ArraySplit => {
                    key = Vec::new();
                    is_vendor = false;
                    assert(key@ =~= Seq::<char>::empty());
                },
                _ => {},
            }
            i = i + 1;
        }
        this
    }
}

} // verus!
