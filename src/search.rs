//! Searching the registry.
use vstd::prelude::*;

use crate::text::push_str;

verus! {

pub struct Search {
    pub keyword: String,
}

/// `s` padded with spaces to at least `width` characters.
pub open spec fn padded(s: Seq<char>, width: nat) -> Seq<char> {
    if s.len() >= width {
        s
    } else {
        s + Seq::new((width - s.len()) as nat, |i: int| ' ')
    }
}

impl Search {
    pub fn new(keyword: &str) -> (r: Search)
        ensures
            r.keyword@ == keyword@,
    {
        Search { keyword: keyword.to_owned() }
    }

    /// The registry's search endpoint for this keyword, fifteen results a page.
    pub fn url(&self) -> (r: String)
        ensures
            r@ == "https://packagist.org/search.json?q="@ + self.keyword@ + "&per_page=15"@,
    {
        let mut r = String::new();
        push_str(&mut r, "https://packagist.org/search.json?q=");
        push_str(&mut r, self.keyword.as_str());
        push_str(&mut r, "&per_page=15");
        r
    }

    /// One result as printed: the name, padded to thirty characters, as a
    /// terminal hyperlink to `url`, then the description.
    pub fn result_line(name: &str, description: &str, url: &str) -> (r: String)
        ensures
            r@ == "\x1b]8;;"@ + url@ + "\x07"@ + padded(name@, 30) + "\x1b]8;;\x07 "@
                + description@,
    {
        let mut r = String::new();
        push_str(&mut r, "\x1b]8;;");
        push_str(&mut r, url);
        push_str(&mut r, "\x07");
        let ghost before = r@;
        push_str(&mut r, name);
        let n = crate::text::to_chars(name).len();
        let mut k: usize = n;
        while k < 30
            invariant
                n == name@.len(),
                n <= k <= 30 || (k == n && n >= 30),
                r@ == before + name@ + Seq::new((k - n) as nat, |i: int| ' '),
            decreases 30 - k,
        {
            r.push(' ');
            k = k + 1;
            assert(r@ =~= before + name@ + Seq::new((k - n) as nat, |i: int| ' '));
        }
        assert(r@ =~= before + padded(name@, 30));
        push_str(&mut r, "\x1b]8;;\x07 ");
        push_str(&mut r, description);
        r
    }
}

} // verus!
