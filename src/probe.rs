//! Reading what the runtime's probes print: its version and its extensions.
use vstd::prelude::*;

use crate::error::ComposerError;
use crate::text::{split_exec, split_on};

verus! {

/// The pattern that finds the runtime version in the output of `php -v`.
pub const PHP_VERSION_PATTERN: &'static str = r"PHP (\d+\.\d+\.\d+)";

/// What the `regex` crate finds for `pattern` in `text`: `None` where
/// `Regex::new` refuses the pattern, where `Regex::captures` finds no match, or
/// where the first capture group takes no part in the leftmost match; else the
/// text of that group.
pub uninterp spec fn regex_capture_of(pattern: Seq<char>, text: Seq<char>) -> Option<Seq<char>>;

/// Relies on `regex::Regex::new`, `Regex::captures` and `Captures::get`: the
/// text of the first capture group of the leftmost match.
#[verifier::external_body]
fn first_capture(pattern: &str, text: &str) -> (r: Option<String>)
    ensures
        match r {
            Some(s) => regex_capture_of(pattern@, text@) == Some(s@),
            None => regex_capture_of(pattern@, text@) is None,
        },
{
    let re = regex::Regex::new(pattern).ok()?;
    let caps = re.captures(text)?;
    match caps.get(1) {
        Some(m) => Some(m.as_str().to_string()),
        None => None,
    }
}

/// The runtime version printed by `php -v`: the first `PHP <d>.<d>.<d>` in it.
pub fn php_version_from_output(output: &str) -> (r: Result<String, ComposerError>)
    ensures
        match r {
            Ok(v) => regex_capture_of(PHP_VERSION_PATTERN@, output@) == Some(v@),
            Err(e) => regex_capture_of(PHP_VERSION_PATTERN@, output@) is None && e
                == ComposerError::GetPhpVersionFailed,
        },
{
    match first_capture(PHP_VERSION_PATTERN, output) {
        Some(v) => Ok(v),
        None => Err(ComposerError::GetPhpVersionFailed),
    }
}

/// A line with the `\r` of a `\r\n` ending removed.
pub open spec fn strip_cr(line: Seq<char>) -> Seq<char> {
    if line.len() > 0 && line.last() == '\r' {
        line.drop_last()
    } else {
        line
    }
}

/// The lines of `s` as `str::lines` gives them: cut at each `\n`, a `\r` before
/// the `\n` dropped, and no empty line after a final `\n`.
pub open spec fn lines_of(s: Seq<char>) -> Seq<Seq<char>> {
    let pieces = split_on(s, seq!['\n']);
    let init = pieces.drop_last().map_values(|p: Seq<char>| strip_cr(p));
    if pieces.last().len() == 0 {
        init
    } else {
        init.push(pieces.last())
    }
}

/// The extensions listed by `php -m`, one per line.
pub fn php_extensions_from_output(output: &str) -> (r: Vec<String>)
    ensures
        r.deep_view() == lines_of(output@),
{
    let chars = crate::text::to_chars(output);
    let newline = vec!['\n'];
    assert(newline@ =~= seq!['\n']);
    let pieces = split_exec(&chars, &newline);
    proof {
        crate::text::lemma_split_nonempty(output@, seq!['\n']);
    }
    let ghost sp = split_on(output@, seq!['\n']);
    let n = pieces.len();
    let mut lines: Vec<String> = Vec::new();
    let mut i: usize = 0;
    while i + 1 < n
        invariant
            n == pieces.len(),
            n >= 1,
            pieces.deep_view() == sp,
            i < n,
            lines.deep_view() =~~= sp.take(i as int).map_values(|p: Seq<char>| strip_cr(p)),
        decreases n - i,
    {
        let piece = &pieces[i];
        assert(sp[i as int] == piece@);
        let line = if piece.len() > 0 && piece[piece.len() - 1] == '\r' {
            let t = crate::text::subrange_chars(piece, 0, piece.len() - 1);
            assert(t@ =~= piece@.drop_last());
            crate::text::from_chars(&t)
        } else {
            crate::text::from_chars(piece)
        };
        let ghost before = lines.deep_view();
        lines.push(line);
        i = i + 1;
        assert(lines.deep_view() =~~= before.push(strip_cr(sp[i - 1])));
        assert(sp.take(i as int).map_values(|p: Seq<char>| strip_cr(p)) =~~= sp.take(i - 1).map_values(
            |p: Seq<char>| strip_cr(p),
        ).push(strip_cr(sp[i - 1])));
    }
    assert(sp.take(i as int) =~~= sp.drop_last());
    let last = &pieces[n - 1];
    assert(sp.last() == last@);
    if last.len() > 0 {
        let ghost before = lines.deep_view();
        lines.push(crate::text::from_chars(last));
        assert(lines.deep_view() =~~= before.push(sp.last()));
    }
    lines
}

} // verus!
