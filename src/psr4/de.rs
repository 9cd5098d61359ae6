//! The scanner of this reader: like the loader-file scanner, but any
//! `$variable` is one token, and literals hold no `.` or `_`.
use vstd::prelude::*;

use super::{with_plain_dir, DirEntries, Psr4Data};
use crate::autoload::de::{scan_other, scan_spaces, stop_char, unescape};
use crate::text::{from_chars, replace_exec, subrange_chars, to_chars};

verus! {

#[derive(Debug, Clone, PartialEq, Eq)]
pub enum Token {
    Return,
    Space,
    ArrayStart,
    ArrayEnd,
    ArraySplit,
    Var,
    Literal(String),
    Arrow,
    Dot,
    Other,
}

/// What a token stands for, with a literal's text as a sequence.
pub enum Lexeme {
    Return,
    Space,
    ArrayStart,
    ArrayEnd,
    ArraySplit,
    Var,
    Literal(Seq<char>),
    Arrow,
    Dot,
    Other,
}

impl Token {
    pub open spec fn lexeme(&self) -> Lexeme {
        match self {
            Token::Return => Lexeme::Return,
            Token::Space => Lexeme::Space,
            Token::ArrayStart => Lexeme::ArrayStart,
            Token::ArrayEnd => Lexeme::ArrayEnd,
            Token::ArraySplit => Lexeme::ArraySplit,
            Token::Var => Lexeme::Var,
            Token::Literal(s) => Lexeme::Literal(s@),
            Token::Arrow => Lexeme::Arrow,
            Token::Dot => Lexeme::Dot,
            Token::Other => Lexeme::Other,
        }
    }
}

pub open spec fn opt_lexeme(t: Option<Token>) -> Option<Lexeme> {
    match t {
        Some(t) => Some(t.lexeme()),
        None => None,
    }
}

/// The characters a quoted literal may hold here.
pub open spec fn literal_char(c: char) -> bool {
    ('a' <= c && c <= 'z') || ('A' <= c && c <= 'Z') || ('0' <= c && c <= '9') || c == '-' || c
        == '\\' || c == '/'
}

pub open spec fn word_char(c: char) -> bool {
    ('a' <= c && c <= 'z') || ('A' <= c && c <= 'Z') || ('0' <= c && c <= '9')
}

pub open spec fn scan_literal(s: Seq<char>, q: int) -> int
    decreases s.len() - q,
{
    if 0 <= q < s.len() && literal_char(s[q]) {
        scan_literal(s, q + 1)
    } else {
        q
    }
}

pub open spec fn scan_word(s: Seq<char>, q: int) -> int
    decreases s.len() - q,
{
    if 0 <= q < s.len() && word_char(s[q]) {
        scan_word(s, q + 1)
    } else {
        q
    }
}

pub open spec fn word(s: Seq<char>, p: int, n: int, t: Lexeme) -> (Option<Lexeme>, int) {
    if p + n <= s.len() {
        (Some(t), p + n)
    } else {
        (None, s.len() as int)
    }
}

/// The token at position `p` of `s`, and the position after it. A `$`
/// followed by letters and digits is a variable where a space or `)` follows.
pub open spec fn lex_step(s: Seq<char>, p: int) -> (Option<Lexeme>, int) {
    if p < 0 || p >= s.len() {
        (None, p)
    } else {
        let c = s[p];
        if c == 'r' {
            if p + 1 >= s.len() {
                (None, p + 1)
            } else if s[p + 1] == 'e' {
                word(s, p, 6, Lexeme::Return)
            } else {
                (Some(Lexeme::Other), p + 1)
            }
        } else if c == ' ' {
            (Some(Lexeme::Space), scan_spaces(s, p + 1))
        } else if c == 'a' {
            if p + 1 >= s.len() {
                (None, p + 1)
            } else if s[p + 1] == 'r' {
                word(s, p, 6, Lexeme::ArrayStart)
            } else {
                (Some(Lexeme::Other), p + 1)
            }
        } else if c == '\'' {
            let q = scan_literal(s, p + 1);
            if q < s.len() && s[q] == '\'' {
                (Some(Lexeme::Literal(s.subrange(p + 1, q))), q + 1)
            } else {
                (None, q)
            }
        } else if c == '=' {
            if p + 1 >= s.len() {
                (None, p + 1)
            } else if s[p + 1] == '>' {
                (Some(Lexeme::Arrow), p + 2)
            } else {
                (Some(Lexeme::Other), p + 1)
            }
        } else if c == '$' {
            let q = scan_word(s, p + 1);
            if q < s.len() && (s[q] == ' ' || s[q] == ')') {
                (Some(Lexeme::Var), q)
            } else {
                (None, q)
            }
        } else if c == '.' {
            (Some(Lexeme::Dot), p + 1)
        } else if c == ',' {
            (Some(Lexeme::ArraySplit), p + 1)
        } else if c == ')' {
            (Some(Lexeme::ArrayEnd), p + 1)
        } else {
            (Some(Lexeme::Other), scan_other(s, p + 1))
        }
    }
}

proof fn lemma_scans(s: Seq<char>, q: int)
    requires
        0 <= q <= s.len(),
    ensures
        q <= scan_literal(s, q) <= s.len(),
        q <= scan_word(s, q) <= s.len(),
    decreases s.len() - q,
{
    if q < s.len() {
        lemma_scans(s, q + 1);
    }
}

proof fn lemma_lex_step_progress(s: Seq<char>, p: int)
    requires
        0 <= p <= s.len(),
    ensures
        p <= lex_step(s, p).1 <= s.len(),
        lex_step(s, p).0 is Some ==> p < lex_step(s, p).1,
{
    if p < s.len() {
        lemma_scans(s, p + 1);
        crate::autoload::de::lemma_scans(s, p + 1);
    }
}

/// Tokens the parser passes over.
pub open spec fn skipped(t: Lexeme) -> bool {
    t is Other || t is Space || t is Dot || t is Var
}

/// The tokens of `s` from position `p` on, up to the first position that gives
/// none, without the skipped ones.
pub open spec fn lex_from(s: Seq<char>, p: int) -> Seq<Lexeme>
    decreases s.len() - p,
{
    let (t, q) = lex_step(s, p);
    match t {
        None => Seq::empty(),
        Some(t) => if p < 0 || q <= p || q > s.len() {
            Seq::empty()
        } else if skipped(t) {
            lex_from(s, q)
        } else {
            seq![t] + lex_from(s, q)
        },
    }
}

/// The map rebuilt from tokens: a literal met without a current prefix becomes
/// the prefix; a literal met with one is a directory of it; `)` ends the prefix.
pub open spec fn fold(t: Seq<Lexeme>, e: DirEntries, key: Seq<char>) -> DirEntries
    decreases t.len(),
{
    if t.len() == 0 {
        e
    } else {
        let rest = t.drop_first();
        match t[0] {
            Lexeme::Literal(lit) => if key.len() == 0 {
                fold(rest, e, unescape(lit))
            } else {
                fold(rest, with_plain_dir(e, key, lit), key)
            },
            Lexeme::ArrayEnd => fold(rest, e, Seq::empty()),
            _ => fold(rest, e, key),
        }
    }
}

/// A position in a text being scanned.
#[derive(Clone)]
pub struct Cursor {
    chars: Vec<char>,
    pos: usize,
}

fn is_literal_char(c: char) -> (r: bool)
    ensures
        r == literal_char(c),
{
    ('a' <= c && c <= 'z') || ('A' <= c && c <= 'Z') || ('0' <= c && c <= '9') || c == '-' || c
        == '\\' || c == '/'
}

fn is_word_char(c: char) -> (r: bool)
    ensures
        r == word_char(c),
{
    ('a' <= c && c <= 'z') || ('A' <= c && c <= 'Z') || ('0' <= c && c <= '9')
}

fn is_stop_char(c: char) -> (r: bool)
    ensures
        r == stop_char(c),
{
    c == 'r' || c == ' ' || c == 'a' || c == '\'' || c == '=' || c == '$' || c == '.' || c == ','
}

impl Cursor {
    pub closed spec fn text(&self) -> Seq<char> {
        self.chars@
    }

    pub closed spec fn position(&self) -> int {
        self.pos as int
    }

    pub closed spec fn wf(&self) -> bool {
        self.pos <= self.chars.len()
    }

    /// A cursor at the start of `source`.
    pub fn new(source: &str) -> (r: Self)
        ensures
            r.wf(),
            r.text() == source@,
            r.position() == 0,
    {
        Cursor { chars: to_chars(source), pos: 0 }
    }

    fn take_word(&mut self, n: usize, t: Token) -> (r: Option<Token>)
        requires
            old(self).wf(),
        ensures
            final(self).wf(),
            final(self).chars@ == old(self).chars@,
            old(self).pos + n <= old(self).chars.len() ==> r == Some(t) && final(self).pos
                == old(self).pos + n,
            old(self).pos + n > old(self).chars.len() ==> r is None && final(self).pos
                == old(self).chars.len(),
    {
        if self.chars.len() - self.pos >= n {
            self.pos = self.pos + n;
            Some(t)
        } else {
            self.pos = self.chars.len();
            None
        }
    }

    /// The next token, or `None` at the end of the text or where it cannot be read.
    pub fn advance(&mut self) -> (r: Option<Token>)
        requires
            old(self).wf(),
        ensures
            final(self).wf(),
            final(self).text() == old(self).text(),
            lex_step(old(self).text(), old(self).position()) == (
                opt_lexeme(r),
                final(self).position(),
            ),
    {
        let len = self.chars.len();
        let p = self.pos;
        if p >= len {
            return None;
        }
        let ghost s = self.chars@;
        let c = self.chars[p];
        self.pos = p + 1;
        if c == 'r' {
            if p + 1 >= len {
                return None;
            }
            if self.chars[p + 1] == 'e' {
                self.pos = p;
                self.take_word(6, Token::Return)
            } else {
                Some(Token::Other)
            }
        } else if c == ' ' {
            let mut q = p + 1;
            while q < len && self.chars[q] == ' '
                invariant
                    p < q <= len,
                    len == self.chars.len(),
                    s == self.chars@,
                    scan_spaces(s, p + 1) == scan_spaces(s, q as int),
                decreases len - q,
            {
                q = q + 1;
            }
            self.pos = q;
            Some(Token::Space)
        } else if c == 'a' {
            if p + 1 >= len {
                return None;
            }
            if self.chars[p + 1] == 'r' {
                self.pos = p;
                self.take_word(6, Token::ArrayStart)
            } else {
                Some(Token::Other)
            }
        } else if c == '\'' {
            let mut q = p + 1;
            while q < len && is_literal_char(self.chars[q])
                invariant
                    p < q <= len,
                    len == self.chars.len(),
                    s == self.chars@,
                    scan_literal(s, p + 1) == scan_literal(s, q as int),
                decreases len - q,
            {
                q = q + 1;
            }
            if q < len && self.chars[q] == '\'' {
                let name = subrange_chars(&self.chars, p + 1, q);
                self.pos = q + 1;
                Some(Token::Literal(from_chars(&name)))
            } else {
                self.pos = q;
                None
            }
        } else if c == '=' {
            if p + 1 >= len {
                return None;
            }
            if self.chars[p + 1] == '>' {
                self.pos = p + 2;
                Some(Token::Arrow)
            } else {
                Some(Token::Other)
            }
        } else if c == '$' {
            let mut q = p + 1;
            while q < len && is_word_char(self.chars[q])
                invariant
                    p < q <= len,
                    len == self.chars.len(),
                    s == self.chars@,
                    scan_word(s, p + 1) == scan_word(s, q as int),
                decreases len - q,
            {
                q = q + 1;
            }
            self.pos = q;
            if q < len && (self.chars[q] == ' ' || self.chars[q] == ')') {
                Some(Token::Var)
            } else {
                None
            }
        } else if c == '.' {
            Some(Token::Dot)
        } else if c == ',' {
            Some(Token::ArraySplit)
        } else if c == ')' {
            Some(Token::ArrayEnd)
        } else {
            let mut q = p + 1;
            while q < len && !is_stop_char(self.chars[q])
                invariant
                    p < q <= len,
                    len == self.chars.len(),
                    s == self.chars@,
                    scan_other(s, p + 1) == scan_other(s, q as int),
                decreases len - q,
            {
                q = q + 1;
            }
            self.pos = q;
            Some(Token::Other)
        }
    }
}

pub open spec fn lexemes(t: Seq<Token>) -> Seq<Lexeme> {
    t.map_values(|x: Token| x.lexeme())
}

/// The tokens of `text` that the parser reads.
pub fn tokens_of(text: &str) -> (r: Vec<Token>)
    ensures
        lexemes(r@) == lex_from(text@, 0),
{
    let mut cursor = Cursor::new(text);
    let mut tokens: Vec<Token> = Vec::new();
    let ghost s = text@;
    assert(lexemes(tokens@) + lex_from(s, 0) =~= lex_from(s, 0));
    loop
        invariant
            cursor.wf(),
            s == text@,
            cursor.text() == s,
            0 <= cursor.position() <= s.len(),
            lex_from(s, 0) == lexemes(tokens@) + lex_from(s, cursor.position()),
        decreases s.len() - cursor.position(),
    {
        let ghost p = cursor.position();
        proof {
            lemma_lex_step_progress(s, p);
        }
        let t = cursor.advance();
        match t {
            None => {
                assert(lex_from(s, p) == Seq::<Lexeme>::empty());
                assert(lexemes(tokens@) + Seq::<Lexeme>::empty() =~= lexemes(tokens@));
                return tokens;
            },
            Some(tok) => {
                let ghost l = tok.lexeme();
                let ghost before = tokens@;
                let keep = match tok {
                    Token::Other | Token::Space | Token::Dot | Token::Var => false,
                    _ => true,
                };
                assert(keep == !skipped(l));
                if keep {
                    tokens.push(tok);
                    assert(lexemes(tokens@) =~= lexemes(before).push(l));
                    assert(lexemes(before) + lex_from(s, p) =~= lexemes(tokens@) + lex_from(
                        s,
                        cursor.position(),
                    ));
                }
            },
        }
    }
}

impl Psr4Data {
    /// The map written in `text`, an `autoload_psr4.php` file.
    pub fn parse(text: &str) -> (r: Self)
        ensures
            r.wf(),
            r@ == fold(lex_from(text@, 0), Seq::empty(), Seq::empty()),
    {
        let tokens = tokens_of(text);
        let ghost t = lexemes(tokens@);
        let mut this = Psr4Data::empty();
        let mut key: Vec<char> = Vec::new();
        let backslashes = vec!['\\', '\\'];
        let backslash = vec!['\\'];
        assert(backslashes@ =~= seq!['\\', '\\']);
        assert(backslash@ =~= seq!['\\']);
        let mut i: usize = 0;
        assert(t.skip(0) =~= t);
        assert(key@ =~= Seq::<char>::empty());
        while i < tokens.len()
            invariant
                i <= tokens.len(),
                t == lexemes(tokens@),
                this.wf(),
                backslashes@ == seq!['\\', '\\'],
                backslash@ == seq!['\\'],
                fold(t, Seq::empty(), Seq::empty()) == fold(t.skip(i as int), this@, key@),
            decreases tokens.len() - i,
        {
            assert(t.skip(i as int).drop_first() =~= t.skip(i + 1));
            match &tokens[i] {
                Token::Literal(lit) => {
                    if key.len() == 0 {
                        key = replace_exec(&to_chars(lit.as_str()), &backslashes, &backslash);
                    } else {
                        this.push_dir(&from_chars(&key), lit.clone());
                    }
                },
                Token::ArrayEnd => {
                    key = Vec::new();
                    assert(key@ =~= Seq::<char>::empty());
                },
                _ => {},
            }
            i = i + 1;
        }
        this
    }

    /// The map read back from an existing `autoload_psr4.php`.
    pub fn new(content: &str) -> (r: Self)
        ensures
            r.wf(),
            r@ == fold(lex_from(content@, 0), Seq::empty(), Seq::empty()),
    {
        Self::parse(content)
    }
}

} // verus!
