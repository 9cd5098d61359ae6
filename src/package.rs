//! Package metadata, the constraint evaluator, the resolver and the lock file.
use vstd::prelude::*;

use crate::error::ComposerError;
use crate::json::pairs_view;
use crate::probe::{
    lines_of, php_extensions_from_output, php_version_from_output, regex_capture_of,
    PHP_VERSION_PATTERN,
};
use crate::semver_adapter::{
    pair_matches, parse_semver, req_matches, semver_pair_match_of, semver_parse_of,
    semver_req_match_of, SemverVersion,
};
use crate::text::{
    contains_char, contains_exec, count_char, count_chars, extend_chars, from_chars, replace_all,
    replace_exec, split_exec, split_on, strip_v, strip_v_chars, to_chars, trim, trim_chars,
};

verus! {

/// The registry's answer for one package: each package name with its version
/// records, most recent first.
#[derive(Debug)]
pub struct P2 {
    pub packages: Vec<(String, Vec<Version>)>,
}

/// One version record of a package.
#[derive(Debug)]
pub struct Version {
    pub name: Option<String>,
    pub version: String,
    pub version_normalized: String,
    pub source: Option<Source>,
    pub dist: Option<Dist>,
    pub require: Option<Require>,
    pub require_dev: Option<Require>,
    pub autoload: Option<AutoloadEnum>,
}

#[derive(Debug)]
pub struct Source {
    pub _type: String,
    pub url: String,
    pub reference: String,
}

/// Where the prebuilt archive of a version is found.
#[derive(Debug)]
pub struct Dist {
    pub url: String,
    pub _type: String,
    pub reference: String,
}

/// A `require` field: a mapping from package name to constraint, in the order
/// the metadata gives it, or a degenerate string.
#[derive(Debug)]
pub enum Require {
    Entries(Vec<(String, String)>),
    String(String),
}

#[derive(Debug)]
pub enum AutoloadEnum {
    Psr(Autoload),
    String(String),
    Null,
}

#[derive(Debug)]
pub struct Autoload {
    pub psr4: Option<Vec<(String, PsrValue)>>,
    pub psr0: Option<Vec<(String, PsrValue)>>,
    pub classmap: Option<AutoLoadClassmap>,
    pub files: Option<Vec<String>>,
}

#[derive(Debug)]
pub enum PsrValue {
    String(String),
    Array(Vec<String>),
}

#[derive(Debug)]
pub enum AutoLoadClassmap {
    Array(Vec<String>),
    Array2(Vec<Vec<String>>),
}

// ---------------------------------------------------------------------------
// Constraint evaluation
// ---------------------------------------------------------------------------

pub open spec fn gt_escape() -> Seq<char> {
    seq!['\\', 'u', '0', '0', '3', 'E']
}

pub open spec fn lt_escape() -> Seq<char> {
    seq!['\\', 'u', '0', '0', '3', 'C']
}

/// A version text with a leading `v`/`V` removed and `major.minor` padded to
/// `major.minor.0`.
pub open spec fn normalize_version(v: Seq<char>) -> Seq<char> {
    let s = strip_v(v);
    if count_char(s, '.') == 1 {
        s + seq!['.', '0']
    } else {
        s
    }
}

/// A constraint text with a leading `v`/`V` removed and the escaped `>` and `<`
/// of the registry's JSON replaced by the characters themselves.
pub open spec fn normalize_constraint(c: Seq<char>) -> Seq<char> {
    replace_all(replace_all(strip_v(c), gt_escape(), seq!['>']), lt_escape(), seq!['<'])
}

pub open spec fn req_outcome(req: Seq<char>, version: Seq<char>) -> Result<bool, ComposerError> {
    match semver_req_match_of(req, version) {
        Some(b) => Ok(b),
        None => Err(ComposerError::MalformedConstraint),
    }
}

pub open spec fn pair_outcome(low: Seq<char>, high: Seq<char>, version: Seq<char>) -> Result<
    bool,
    ComposerError,
> {
    match semver_pair_match_of(low, high, version) {
        Some(b) => Ok(b),
        None => Err(ComposerError::MalformedConstraint),
    }
}

/// The alternatives tried from the last one back to the first: the first that
/// matches gives `true`, the first that cannot be read gives its error.
pub open spec fn alternatives_outcome(parts: Seq<Seq<char>>, version: Seq<char>) -> Result<
    bool,
    ComposerError,
>
    decreases parts.len(),
{
    if parts.len() == 0 {
        Ok(false)
    } else {
        match req_outcome(trim(parts.last()), version) {
            Err(e) => Err(e),
            Ok(true) => Ok(true),
            Ok(false) => alternatives_outcome(parts.drop_last(), version),
        }
    }
}

/// Whether `version` satisfies the constraint expression `req`.
pub open spec fn satisfies(req: Seq<char>, version: Seq<char>) -> Result<bool, ComposerError> {
    let v = normalize_version(version);
    let r = normalize_constraint(req);
    if semver_parse_of(v) is None {
        Err(ComposerError::MalformedVersion)
    } else if crate::text::contains_seq(r, seq!['|', '|']) {
        alternatives_outcome(split_on(r, seq!['|', '|']), v)
    } else if r.contains('|') {
        alternatives_outcome(split_on(r, seq!['|']), v)
    } else if crate::text::contains_seq(r, seq![' ', '-', ' ']) {
        let parts = split_on(r, seq![' ', '-', ' ']);
        if parts.len() != 2 {
            Err(ComposerError::MalformedConstraint)
        } else {
            pair_outcome(seq!['>', '='] + trim(parts[0]), seq!['<', '='] + trim(parts[1]), v)
        }
    } else if r.contains('>') && r.contains('<') {
        let parts = split_on(r, seq![' ']);
        if parts.len() != 2 {
            Err(ComposerError::MalformedConstraint)
        } else {
            pair_outcome(trim(parts[0]), trim(parts[1]), v)
        }
    } else {
        req_outcome(r, v)
    }
}

/// `normalize_version` on a vector of characters.
pub fn normalize_version_chars(v: &Vec<char>) -> (r: Vec<char>)
    ensures
        r@ == normalize_version(v@),
{
    let mut s = strip_v_chars(v);
    if count_chars(&s, '.') == 1 {
        s.push('.');
        s.push('0');
        assert(s@ =~= strip_v(v@) + seq!['.', '0']);
    }
    s
}

/// `normalize_constraint` on a vector of characters.
pub fn normalize_constraint_chars(c: &Vec<char>) -> (r: Vec<char>)
    ensures
        r@ == normalize_constraint(c@),
{
    let s = strip_v_chars(c);
    let gt = vec!['\\', 'u', '0', '0', '3', 'E'];
    let lt = vec!['\\', 'u', '0', '0', '3', 'C'];
    assert(gt@ =~= gt_escape());
    assert(lt@ =~= lt_escape());
    let greater = vec!['>'];
    let less = vec!['<'];
    assert(greater@ =~= seq!['>']);
    assert(less@ =~= seq!['<']);
    let s = replace_exec(&s, &gt, &greater);
    replace_exec(&s, &lt, &less)
}

fn req_outcome_exec(req: &Vec<char>, version: &String) -> (r: Result<bool, ComposerError>)
    requires
        semver_parse_of(version@) is Some,
    ensures
        r == req_outcome(req@, version@),
        req@ == "*"@ ==> r == Ok::<bool, ComposerError>(semver_parse_of(version@)->Some_0.3.len() == 0),
{
    let req = from_chars(req);
    match req_matches(req.as_str(), version.as_str()) {
        Ok(b) => Ok(b),
        Err(_) => Err(ComposerError::MalformedConstraint),
    }
}

fn pair_outcome_exec(low: &Vec<char>, high: &Vec<char>, version: &String) -> (r: Result<
    bool,
    ComposerError,
>)
    requires
        semver_parse_of(version@) is Some,
    ensures
        r == pair_outcome(low@, high@, version@),
{
    let low = from_chars(low);
    let high = from_chars(high);
    match pair_matches(low.as_str(), high.as_str(), version.as_str()) {
        Ok(b) => Ok(b),
        Err(_) => Err(ComposerError::MalformedConstraint),
    }
}

fn alternatives_exec(parts: &Vec<Vec<char>>, version: &String) -> (r: Result<bool, ComposerError>)
    requires
        semver_parse_of(version@) is Some,
    ensures
        r == alternatives_outcome(parts.deep_view(), version@),
{
    let ghost all = parts.deep_view();
    let mut i: usize = parts.len();
    assert(all.take(i as int) =~= all);
    while i > 0
        invariant
            i <= parts.len(),
            all == parts.deep_view(),
            semver_parse_of(version@) is Some,
            alternatives_outcome(all, version@) == alternatives_outcome(
                all.take(i as int),
                version@,
            ),
        decreases i,
    {
        let part = trim_chars(&parts[i - 1]);
        assert(all.take(i as int).last() == parts[i - 1]@);
        assert(all.take(i as int).drop_last() =~= all.take(i - 1));
        match req_outcome_exec(&part, version) {
            Err(e) => {
                return Err(e);
            },
            Ok(true) => {
                return Ok(true);
            },
            Ok(false) => {},
        }
        i = i - 1;
    }
    Ok(false)
}

/// Prefixes `op` to the trimmed `part`.
fn comparator_text(op: &Vec<char>, part: &Vec<char>) -> (r: Vec<char>)
    ensures
        r@ == op@ + trim(part@),
{
    let mut r = op.clone();
    let t = trim_chars(part);
    extend_chars(&mut r, &t);
    r
}

impl P2 {
    /// Whether `version` satisfies the constraint expression `req`: alternatives
    /// joined by `||` or `|` (tried from the last), a hyphen range `A - B`
    /// (exactly two sides), a pair of bounds separated by one space, or a
    /// single requirement. Both texts are normalized first.
    pub fn semver_check(_name: &str, req: &str, version: &str) -> (r: Result<bool, ComposerError>)
        ensures
            r == satisfies(req@, version@),
            req@ == "*"@ && semver_parse_of(normalize_version(version@)) is Some ==> r == Ok::<
                bool,
                ComposerError,
            >(semver_parse_of(normalize_version(version@))->Some_0.3.len() == 0),
    {
        proof {
            lemma_star_constraint();
        }
        let v = normalize_version_chars(&to_chars(version));
        let rq = normalize_constraint_chars(&to_chars(req));
        let vs = from_chars(&v);
        match parse_semver(vs.as_str()) {
            Err(_) => {
                return Err(ComposerError::MalformedVersion);
            },
            Ok(_) => {},
        }
        let bars = vec!['|', '|'];
        assert(bars@ =~= seq!['|', '|']);
        if contains_exec(&rq, &bars) {
            let parts = split_exec(&rq, &bars);
            alternatives_exec(&parts, &vs)
        } else if contains_char(&rq, '|') {
            let bar = vec!['|'];
            assert(bar@ =~= seq!['|']);
            let parts = split_exec(&rq, &bar);
            alternatives_exec(&parts, &vs)
        } else if contains_exec(&rq, &vec![' ', '-', ' ']) {
            let dash = vec![' ', '-', ' '];
            assert(dash@ =~= seq![' ', '-', ' ']);
            let parts = split_exec(&rq, &dash);
            if parts.len() != 2 {
                return Err(ComposerError::MalformedConstraint);
            }
            let ge = vec!['>', '='];
            let le = vec!['<', '='];
            assert(ge@ =~= seq!['>', '=']);
            assert(le@ =~= seq!['<', '=']);
            assert(parts.deep_view()[0] == parts[0]@ && parts.deep_view()[1] == parts[1]@);
            let low = comparator_text(&ge, &parts[0]);
            let high = comparator_text(&le, &parts[1]);
            pair_outcome_exec(&low, &high, &vs)
        } else if contains_char(&rq, '>') && contains_char(&rq, '<') {
            let space = vec![' '];
            assert(space@ =~= seq![' ']);
            let parts = split_exec(&rq, &space);
            if parts.len() != 2 {
                return Err(ComposerError::MalformedConstraint);
            }
            assert(parts.deep_view()[0] == parts[0]@ && parts.deep_view()[1] == parts[1]@);
            let low = trim_chars(&parts[0]);
            let high = trim_chars(&parts[1]);
            pair_outcome_exec(&low, &high, &vs)
        } else {
            req_outcome_exec(&rq, &vs)
        }
    }
}

/// The constraint `*` is left as it is by normalization and fits none of the
/// compound forms.
proof fn lemma_star_constraint()
    ensures
        normalize_constraint("*"@) == "*"@,
        !crate::text::contains_seq("*"@, seq!['|', '|']),
        !crate::text::contains_seq("*"@, seq![' ', '-', ' ']),
        !"*"@.contains('|'),
        !"*"@.contains('>'),
{
    reveal_strlit("*");
    let r = "*"@;
    assert(r =~= seq!['*']);
    assert(strip_v(r) == r);
    assert(replace_all(r, gt_escape(), seq!['>']) == r);
    assert(replace_all(r, lt_escape(), seq!['<']) == r);
    assert forall|i: int| !crate::text::occurs_at(r, i, seq!['|', '|']) by {}
    assert forall|i: int| !crate::text::occurs_at(r, i, seq![' ', '-', ' ']) by {}
}

impl Version {
    /// This record's version as the semver reader splits it up, after it is
    /// normalized (a leading `v`/`V` removed, `major.minor` padded).
    pub fn semver(&self) -> (r: Result<SemverVersion, ComposerError>)
        ensures
            match r {
                Ok(v) => semver_parse_of(normalize_version(self.version@)) == Some(v.parts()),
                Err(e) => semver_parse_of(normalize_version(self.version@)) is None && e
                    == ComposerError::MalformedVersion,
            },
    {
        let text = from_chars(&normalize_version_chars(&to_chars(self.version.as_str())));
        match parse_semver(text.as_str()) {
            Ok(v) => Ok(v),
            Err(_) => Err(ComposerError::MalformedVersion),
        }
    }
}


// ---------------------------------------------------------------------------
// Version selection
// ---------------------------------------------------------------------------

pub open spec fn opt_view(c: Option<String>) -> Option<Seq<char>> {
    match c {
        Some(s) => Some(s@),
        None => None,
    }
}

/// The index of the first record at or after `from` whose version satisfies
/// `c` (`None` if there is none); the first evaluation that fails ends the scan
/// with its error.
pub open spec fn first_satisfying(list: Seq<Version>, c: Seq<char>, from: int) -> Result<
    Option<int>,
    ComposerError,
>
    decreases list.len() - from,
{
    if from < 0 || from >= list.len() {
        Ok(None)
    } else {
        match satisfies(c, list[from].version@) {
            Err(e) => Err(e),
            Ok(true) => Ok(Some(from)),
            Ok(false) => first_satisfying(list, c, from + 1),
        }
    }
}

/// Whether a version text, once normalized, reads as a version without a
/// pre-release tag.
pub open spec fn stable_outcome(v: Seq<char>) -> Result<bool, ComposerError> {
    match semver_parse_of(normalize_version(v)) {
        None => Err(ComposerError::MalformedVersion),
        Some(parts) => Ok(parts.3.len() == 0),
    }
}

/// The index of the first stable record at or after `from`.
pub open spec fn first_stable(list: Seq<Version>, from: int) -> Result<Option<int>, ComposerError>
    decreases list.len() - from,
{
    if from < 0 || from >= list.len() {
        Ok(None)
    } else {
        match stable_outcome(list[from].version@) {
            Err(e) => Err(e),
            Ok(true) => Ok(Some(from)),
            Ok(false) => first_stable(list, from + 1),
        }
    }
}

/// The record that resolution picks from `list`: the first one satisfying the
/// constraint, or without a constraint the first stable one; an error where
/// none qualifies.
pub open spec fn selected_index(list: Seq<Version>, c: Option<Seq<char>>) -> Result<
    int,
    ComposerError,
> {
    if list.len() == 0 {
        Err(ComposerError::MalformedMetadata)
    } else {
        let found = match c {
            Some(c) => first_satisfying(list, c, 0),
            None => first_stable(list, 0),
        };
        match found {
            Err(e) => Err(e),
            Ok(Some(k)) => Ok(k),
            Ok(None) => Err(ComposerError::NoMatchingVersion),
        }
    }
}

proof fn lemma_first_satisfying_range(list: Seq<Version>, c: Seq<char>, from: int)
    ensures
        first_satisfying(list, c, from) matches Ok(Some(k)) ==> from <= k < list.len() && satisfies(
            c,
            list[k].version@,
        ) == Ok::<bool, ComposerError>(true),
    decreases list.len() - from,
{
    if 0 <= from < list.len() {
        lemma_first_satisfying_range(list, c, from + 1);
    }
}

proof fn lemma_first_stable_range(list: Seq<Version>, from: int)
    ensures
        first_stable(list, from) matches Ok(Some(k)) ==> from <= k < list.len() && stable_outcome(
            list[k].version@,
        ) == Ok::<bool, ComposerError>(true),
    decreases list.len() - from,
{
    if 0 <= from < list.len() {
        lemma_first_stable_range(list, from + 1);
    }
}

proof fn lemma_selected_in_range(list: Seq<Version>, c: Option<Seq<char>>)
    ensures
        selected_index(list, c) matches Ok(k) ==> 0 <= k < list.len(),
{
    match c {
        Some(c) => lemma_first_satisfying_range(list, c, 0),
        None => lemma_first_stable_range(list, 0),
    }
}

impl P2 {
    /// The index of the record that resolution picks from `list` for the
    /// constraint `constraint` (none for a root requirement given as `*`).
    pub fn select_version(_name: &str, list: &Vec<Version>, constraint: &Option<String>) -> (r: Result<
        usize,
        ComposerError,
    >)
        ensures
            match r {
                Ok(k) => selected_index(list@, opt_view(*constraint)) == Ok::<int, ComposerError>(k as int) && k
                    < list.len(),
                Err(e) => selected_index(list@, opt_view(*constraint)) == Err::<int, ComposerError>(e),
            },
    {
        proof {
            lemma_selected_in_range(list@, opt_view(*constraint));
        }
        if list.len() == 0 {
            return Err(ComposerError::MalformedMetadata);
        }
        let mut i: usize = 0;
        match constraint {
            Some(c) => {
                while i < list.len()
                    invariant
                        i <= list.len(),
                        list.len() > 0,
                        opt_view(*constraint) == Some(c@),
                        first_satisfying(list@, c@, 0) == first_satisfying(list@, c@, i as int),
                    decreases list.len() - i,
                {
                    match Self::semver_check(_name, c.as_str(), list[i].version.as_str()) {
                        Err(e) => {
                            return Err(e);
                        },
                        Ok(true) => {
                            return Ok(i);
                        },
                        Ok(false) => {},
                    }
                    i = i + 1;
                }
            },
            None => {
                while i < list.len()
                    invariant
                        i <= list.len(),
                        list.len() > 0,
                        opt_view(*constraint) is None,
                        first_stable(list@, 0) == first_stable(list@, i as int),
                    decreases list.len() - i,
                {
                    match list[i].semver() {
                        Err(e) => {
                            return Err(e);
                        },
                        Ok(v) => {
                            if v.pre.as_str().is_empty() {
                                return Ok(i);
                            }
                        },
                    }
                    i = i + 1;
                }
            },
        }
        Err(ComposerError::NoMatchingVersion)
    }
}

// ---------------------------------------------------------------------------
// Resolution
// ---------------------------------------------------------------------------

/// A piece of pending resolution work.
pub enum Task {
    /// Resolve a package under a constraint, or with none for a root `*`.
    Resolve(String, Option<String>),
    /// Check the runtime version against a constraint declared by the record
    /// labelled `name(version)`.
    CheckPhp(String, String),
    /// Check that a runtime extension declared by a record is loaded.
    CheckExt(String, String),
}

/// The state of one resolution run, shared by all root requirements.
pub struct Context {
    /// The locked records, in the order they were locked.
    pub versions: Vec<Version>,
    /// The names already visited.
    pub hash_set: Vec<String>,
    /// The version picked for the current root requirement when it had no constraint.
    pub first_package: Option<String>,
    pub php_extensions: Vec<String>,
    pub php_version: String,
    /// Records whose runtime version requirement is unmet, with the requirement.
    pub php_version_error: Vec<(String, String)>,
    /// Records whose runtime extension requirement is unmet, with the extension.
    pub php_extensions_error: Vec<(String, String)>,
    pub p2_url: String,
    /// Work still to do, the next piece last.
    pub pending: Vec<Task>,
    /// The package whose metadata was asked for and has not yet been handed in.
    pub awaiting: Option<(String, Option<String>)>,
    /// For each locked record, the constraint it was first requested under and
    /// the candidate records it was picked from.
    pub requests: Ghost<Seq<(Option<Seq<char>>, Seq<Version>)>>,
}

/// `e` is one of the runtime's extensions.
pub open spec fn ext_present(exts: Seq<String>, e: Seq<char>) -> bool {
    exists|k: int| 0 <= k < exts.len() && (#[trigger] exts[k])@ == e
}

/// The pending work done up to the next package whose metadata is needed,
/// from the top of the stack `p` down: what is asked for (or the end, or the
/// error of a runtime version constraint that cannot be evaluated), how many
/// tasks are left, and the runtime version and extension violations recorded.
pub open spec fn drain(
    p: Seq<Task>,
    visited: Seq<String>,
    php: Seq<char>,
    exts: Seq<String>,
    perr: Seq<(Seq<char>, Seq<char>)>,
    eerr: Seq<(Seq<char>, Seq<char>)>,
) -> (
    Result<Option<(Seq<char>, Option<Seq<char>>)>, ComposerError>,
    nat,
    Seq<(Seq<char>, Seq<char>)>,
    Seq<(Seq<char>, Seq<char>)>,
)
    decreases p.len(),
{
    if p.len() == 0 {
        (Ok(None), 0, perr, eerr)
    } else {
        let rest = p.drop_last();
        match p.last() {
            Task::Resolve(n, c) => if in_names(visited, n@) {
                drain(rest, visited, php, exts, perr, eerr)
            } else {
                (Ok(Some((n@, opt_view(c)))), rest.len(), perr, eerr)
            },
            Task::CheckPhp(l, c) => match satisfies(c@, php) {
                Err(e) => (Err(e), rest.len(), perr, eerr),
                Ok(true) => drain(rest, visited, php, exts, perr, eerr),
                Ok(false) => drain(rest, visited, php, exts, perr.push((l@, c@)), eerr),
            },
            Task::CheckExt(l, e) => if ext_present(exts, e@) {
                drain(rest, visited, php, exts, perr, eerr)
            } else {
                drain(rest, visited, php, exts, perr, eerr.push((l@, e@)))
            },
        }
    }
}

/// `n` is one of `names`.
pub open spec fn in_names(names: Seq<String>, n: Seq<char>) -> bool {
    exists|k: int| 0 <= k < names.len() && (#[trigger] names[k])@ == n
}

/// The name stamped on a locked record.
pub open spec fn locked_name(v: Version) -> Seq<char> {
    match v.name {
        Some(n) => n@,
        None => Seq::empty(),
    }
}

/// No name occurs twice among `vs`.
pub open spec fn names_distinct(vs: Seq<Version>) -> bool {
    forall|i: int, j: int|
        0 <= i < j < vs.len() ==> locked_name(#[trigger] vs[i]) != locked_name(#[trigger] vs[j])
}

/// Each record of `vs` is the one that resolution picks from its candidates
/// under the constraint it was first requested with.
pub open spec fn picked_as_requested(
    vs: Seq<Version>,
    requests: Seq<(Option<Seq<char>>, Seq<Version>)>,
) -> bool {
    &&& vs.len() == requests.len()
    &&& forall|i: int|
        0 <= i < vs.len() ==> {
            let (c, list) = #[trigger] requests[i];
            &&& selected_index(list, c) is Ok
            &&& 0 <= selected_index(list, c)->Ok_0 < list.len()
            &&& vs[i].version@ == list[selected_index(list, c)->Ok_0].version@
        }
}

impl Context {
    pub open spec fn visited(&self, n: Seq<char>) -> bool {
        in_names(self.hash_set@, n)
    }

    /// The invariant of a resolution run.
    pub open spec fn wf(&self) -> bool {
        &&& forall|i: int| 0 <= i < self.versions.len() ==> (#[trigger] self.versions[i]).name is Some
        &&& forall|i: int|
            0 <= i < self.versions.len() ==> self.visited(locked_name(#[trigger] self.versions[i]))
        &&& names_distinct(self.versions@)
        &&& picked_as_requested(self.versions@, self.requests@)
        &&& (self.awaiting matches Some((n, _)) ==> !self.visited(n@))
    }

    /// A fresh run for a runtime whose `php -v` and `php -m` printed the given texts.
    pub fn new(php_version_output: &str, php_modules_output: &str) -> (r: Result<Self, ComposerError>)
        ensures
            match r {
                Ok(c) => {
                    &&& c.wf()
                    &&& c.versions.len() == 0 && c.hash_set.len() == 0 && c.pending.len() == 0
                    &&& c.awaiting is None && c.first_package is None
                    &&& c.p2_url@ == Seq::<char>::empty()
                    &&& c.php_version_error.len() == 0 && c.php_extensions_error.len() == 0
                    &&& regex_capture_of(PHP_VERSION_PATTERN@, php_version_output@) == Some(
                        c.php_version@,
                    )
                    &&& c.php_extensions.deep_view() == lines_of(php_modules_output@)
                },
                Err(e) => e == ComposerError::GetPhpVersionFailed && regex_capture_of(
                    PHP_VERSION_PATTERN@,
                    php_version_output@,
                ) is None,
            },
    {
        let php_version = match php_version_from_output(php_version_output) {
            Ok(v) => v,
            Err(e) => {
                return Err(e);
            },
        };
        let php_extensions = php_extensions_from_output(php_modules_output);
        Ok(Context {
            versions: Vec::new(),
            hash_set: Vec::new(),
            first_package: None,
            php_extensions,
            php_version,
            php_version_error: Vec::new(),
            php_extensions_error: Vec::new(),
            p2_url: String::new(),
            pending: Vec::new(),
            awaiting: None,
            requests: Ghost(Seq::empty()),
        })
    }

    /// Whether `extension` is among the runtime's extensions.
    pub fn exists_extension(&self, extension: &str) -> (r: bool)
        ensures
            r == exists|k: int|
                0 <= k < self.php_extensions.len() && (#[trigger] self.php_extensions[k])@
                    == extension@,
    {
        let wanted = extension.to_owned();
        let mut i: usize = 0;
        while i < self.php_extensions.len()
            invariant
                i <= self.php_extensions.len(),
                wanted@ == extension@,
                forall|k: int| 0 <= k < i ==> (#[trigger] self.php_extensions[k])@ != extension@,
            decreases self.php_extensions.len() - i,
        {
            if self.php_extensions[i] == wanted {
                assert(self.php_extensions[i as int]@ == extension@);
                return true;
            }
            i = i + 1;
        }
        false
    }

    fn is_visited(&self, name: &String) -> (r: bool)
        ensures
            r == self.visited(name@),
    {
        let mut i: usize = 0;
        while i < self.hash_set.len()
            invariant
                i <= self.hash_set.len(),
                forall|k: int| 0 <= k < i ==> (#[trigger] self.hash_set[k])@ != name@,
            decreases self.hash_set.len() - i,
        {
            if self.hash_set[i] == *name {
                return true;
            }
            i = i + 1;
        }
        false
    }

    /// Starts resolving a root requirement: `version` is `None` for `*`.
    pub fn push_root(&mut self, name: String, version: Option<String>)
        requires
            old(self).wf(),
        ensures
            final(self).wf(),
            final(self).versions@ == old(self).versions@,
            final(self).first_package is None,
            final(self).pending@ == old(self).pending@.push(Task::Resolve(name, version)),
    {
        self.first_package = None;
        self.pending.push(Task::Resolve(name, version));
    }

    /// Does the pending work that needs no metadata (runtime version and
    /// extension checks, packages already visited) up to the next package whose
    /// metadata is needed. `Ok(Some(name))` asks for that package's metadata,
    /// to be handed to `on_metadata`; `Ok(None)` says the run is over. A
    /// constraint that cannot be evaluated ends the run with its error.
    pub fn next_fetch(&mut self) -> (r: Result<Option<String>, ComposerError>)
        requires
            old(self).wf(),
        ensures
            final(self).wf(),
            final(self).versions@ == old(self).versions@,
            final(self).hash_set@ == old(self).hash_set@,
            final(self).requests@ == old(self).requests@,
            ({
                let d = drain(
                    old(self).pending@,
                    old(self).hash_set@,
                    old(self).php_version@,
                    old(self).php_extensions@,
                    pairs_view(old(self).php_version_error@),
                    pairs_view(old(self).php_extensions_error@),
                );
                &&& final(self).pending@ == old(self).pending@.take(d.1 as int)
                &&& pairs_view(final(self).php_version_error@) == d.2
                &&& pairs_view(final(self).php_extensions_error@) == d.3
                &&& match d.0 {
                    Ok(Some((n, c))) => (r matches Ok(Some(m)) && m@ == n && (final(self).awaiting matches Some((an, ac)) && an@ == n && opt_view(ac) == c)),
                    Ok(None) => r == Ok::<Option<String>, ComposerError>(None) && final(self).awaiting
                        == old(self).awaiting,
                    Err(e) => r == Err::<Option<String>, ComposerError>(e) && final(self).awaiting
                        == old(self).awaiting,
                }
            }),
    {
        let ghost p0 = self.pending@;
        let ghost d0 = drain(
            p0,
            self.hash_set@,
            self.php_version@,
            self.php_extensions@,
            pairs_view(self.php_version_error@),
            pairs_view(self.php_extensions_error@),
        );
        assert(p0.take(p0.len() as int) =~= p0);
        loop
            invariant
                self.wf(),
                self.versions@ == old(self).versions@,
                self.hash_set@ == old(self).hash_set@,
                self.requests@ == old(self).requests@,
                self.php_version@ == old(self).php_version@,
                self.php_extensions@ == old(self).php_extensions@,
                self.awaiting == old(self).awaiting,
                p0 == old(self).pending@,
                d0 == drain(
                    old(self).pending@,
                    old(self).hash_set@,
                    old(self).php_version@,
                    old(self).php_extensions@,
                    pairs_view(old(self).php_version_error@),
                    pairs_view(old(self).php_extensions_error@),
                ),
                self.pending.len() <= p0.len(),
                self.pending@ == p0.take(self.pending.len() as int),
                d0 == drain(
                    self.pending@,
                    self.hash_set@,
                    self.php_version@,
                    self.php_extensions@,
                    pairs_view(self.php_version_error@),
                    pairs_view(self.php_extensions_error@),
                ),
            decreases self.pending.len(),
        {
            let ghost before = self.pending@;
            let ghost perr = self.php_version_error@;
            let ghost eerr = self.php_extensions_error@;
            let top = self.pending.pop();
            proof {
                if before.len() > 0 {
                    assert(before =~= self.pending@.push(before.last()));
                    assert(self.pending@ =~= p0.take(self.pending.len() as int));
                }
            }
            match top {
                None => {
                    return Ok(None);
                },
                Some(Task::Resolve(name, c)) => {
                    if !self.is_visited(&name) {
                        let n = name.clone();
                        self.awaiting = Some((name, c));
                        return Ok(Some(n));
                    }
                },
                Some(Task::CheckPhp(label, c)) => {
                    match P2::semver_check(label.as_str(), c.as_str(), self.php_version.as_str()) {
                        Err(e) => {
                            return Err(e);
                        },
                        Ok(true) => {},
                        Ok(false) => {
                            let ghost entry = (label@, c@);
                            self.php_version_error.push((label, c));
                            assert(pairs_view(self.php_version_error@) =~= pairs_view(perr).push(
                                entry,
                            ));
                        },
                    }
                },
                Some(Task::CheckExt(label, ext)) => {
                    if !self.exists_extension(ext.as_str()) {
                        let ghost entry = (label@, ext@);
                        self.php_extensions_error.push((label, ext));
                        assert(pairs_view(self.php_extensions_error@) =~= pairs_view(eerr).push(
                            entry,
                        ));
                    }
                },
            }
        }
    }

    /// Hands in the metadata of the package that `next_fetch` asked for, `None`
    /// where the registry does not have it (the package is then left out).
    /// Locks the record picked for it, stamped with its name, and queues its
    /// requirements; returns the progress line of the locked record.
    pub fn on_metadata(&mut self, meta: Option<P2>) -> (r: Result<Option<String>, ComposerError>)
        requires
            old(self).wf(),
        ensures
            final(self).wf(),
            final(self).awaiting is None,
            match (old(self).awaiting, meta) {
                (Some((n, c)), Some(p)) => match first_entry(p.packages@, n@, 0) {
                    None => r == Err::<Option<String>, ComposerError>(
                        ComposerError::MalformedMetadata,
                    ) && same_run(*old(self), *final(self)),
                    Some(j) => {
                        let l = p.packages@[j].1@;
                        match selected_index(l, opt_view(c)) {
                            Err(e) => r == Err::<Option<String>, ComposerError>(e) && same_run(
                                *old(self),
                                *final(self),
                            ),
                            Ok(k) => {
                                &&& r matches Ok(Some(line)) && line@ == "  - Locking "@
                                    + locking_text(n@, l[k].version@)
                                &&& final(self).versions@.len() == old(self).versions@.len() + 1
                                &&& final(self).versions@.drop_last() == old(self).versions@
                                &&& stamped(final(self).versions@.last(), l[k], n)
                                &&& final(self).hash_set@ == old(self).hash_set@.push(n)
                                &&& final(self).requests@ == old(self).requests@.push(
                                    (opt_view(c), l),
                                )
                                &&& final(self).first_package == (if c is None {
                                    Some(l[k].version)
                                } else {
                                    old(self).first_package
                                })
                                &&& queued(
                                    old(self).pending@,
                                    final(self).pending@,
                                    locking_text(n@, l[k].version@),
                                    l[k].require,
                                )
                            },
                        }
                    },
                },
                _ => r == Ok::<Option<String>, ComposerError>(None) && same_run(
                    *old(self),
                    *final(self),
                ),
            },
    {
        let (name, constraint) = match self.awaiting.take() {
            None => {
                return Ok(None);
            },
            Some(t) => t,
        };
        let p2 = match meta {
            None => {
                return Ok(None);
            },
            Some(p) => p,
        };
        let mut packages = p2.packages;
        let j = match position_of(&packages, &name) {
            None => {
                return Err(ComposerError::MalformedMetadata);
            },
            Some(j) => j,
        };
        let ghost entries = packages@;
        let (_, mut list) = packages.remove(j);
        assert(list@ == entries[j as int].1@);
        assert(first_entry(entries, name@, 0) == Some(j as int));
        assert(same_run(*old(self), *self));
        let k = match P2::select_version(name.as_str(), &list, &constraint) {
            Err(e) => {
                return Err(e);
            },
            Ok(k) => k,
        };
        let ghost candidates = list@;
        let mut info = list.remove(k);
        let ghost picked = info;
        if constraint.is_none() {
            self.first_package = Some(info.version.clone());
        }
        info.name = Some(name.clone());
        let label = record_label(&name, &info.version);
        let line = locking_line(&label);
        queue_requirements(&mut self.pending, &label, &info.require);
        assert(stamped(info, picked, name));
        let ghost old_names = self.hash_set@;
        let ghost old_versions = self.versions@;
        assert(!in_names(old_names, name@));
        self.versions.push(info);
        self.hash_set.push(name);
        self.requests = Ghost(self.requests@.push((opt_view(constraint), candidates)));
        proof {
            assert forall|i: int| 0 <= i < self.versions.len() implies in_names(
                self.hash_set@,
                locked_name(#[trigger] self.versions[i]),
            ) by {
                if i < old_versions.len() {
                    let w = choose|w: int|
                        0 <= w < old_names.len() && (#[trigger] old_names[w])@ == locked_name(
                            old_versions[i],
                        );
                    assert(self.hash_set@[w] == old_names[w]);
                } else {
                    assert(self.hash_set@[old_names.len() as int]@ == locked_name(
                        self.versions[i],
                    ));
                }
            }
            assert forall|i: int, j: int|
                0 <= i < j < self.versions.len() implies locked_name(
                #[trigger] self.versions@[i],
            ) != locked_name(#[trigger] self.versions@[j]) by {
                if j == old_versions.len() {
                    assert(in_names(old_names, locked_name(old_versions[i])));
                }
            }
            assert(picked_as_requested(self.versions@, self.requests@)) by {
                assert forall|i: int| 0 <= i < self.versions.len() implies {
                    let (c, list) = #[trigger] self.requests@[i];
                    &&& selected_index(list, c) is Ok
                    &&& 0 <= selected_index(list, c)->Ok_0 < list.len()
                    &&& self.versions@[i].version@ == list[selected_index(list, c)->Ok_0].version@
                } by {
                    if i < old_versions.len() {
                        assert(self.requests@[i] == old(self).requests@[i]);
                    }
                }
            }
        }
        Ok(Some(line))
    }
}


/// `name(version)`, the label of a record in messages.
pub open spec fn locking_text(name: Seq<char>, version: Seq<char>) -> Seq<char> {
    name + seq!['('] + version + seq![')']
}

fn record_label(name: &String, version: &String) -> (r: String)
    ensures
        r@ == locking_text(name@, version@),
{
    let mut r = name.clone();
    r.push('(');
    crate::text::push_str(&mut r, version.as_str());
    r.push(')');
    assert(r@ =~= locking_text(name@, version@));
    r
}

fn locking_line(label: &String) -> (r: String)
    ensures
        r@ == "  - Locking "@ + label@,
{
    let mut r = String::new();
    crate::text::push_str(&mut r, "  - Locking ");
    crate::text::push_str(&mut r, label.as_str());
    r
}

/// Where `name` stands among the packages of a registry answer.
fn position_of(packages: &Vec<(String, Vec<Version>)>, name: &String) -> (r: Option<usize>)
    ensures
        match r {
            Some(j) => j < packages.len() && packages[j as int].0@ == name@,
            None => forall|j: int| 0 <= j < packages.len() ==> (#[trigger] packages[j]).0@ != name@,
        },
        match r {
            Some(j) => first_entry(packages@, name@, 0) == Some(j as int),
            None => first_entry(packages@, name@, 0) is None,
        },
{
    let mut j: usize = 0;
    while j < packages.len()
        invariant
            j <= packages.len(),
            forall|i: int| 0 <= i < j ==> (#[trigger] packages[i]).0@ != name@,
            first_entry(packages@, name@, 0) == first_entry(packages@, name@, j as int),
        decreases packages.len() - j,
    {
        if packages[j].0 == *name {
            return Some(j);
        }
        j = j + 1;
    }
    None
}

/// The first entry at or after `from` of a registry answer that is named `n`.
pub open spec fn first_entry(packages: Seq<(String, Vec<Version>)>, n: Seq<char>, from: int) -> Option<
    int,
>
    decreases packages.len() - from,
{
    if from < 0 || from >= packages.len() {
        None
    } else if packages[from].0@ == n {
        Some(from)
    } else {
        first_entry(packages, n, from + 1)
    }
}

/// `v` is the record `r` stamped with the name `n`.
pub open spec fn stamped(v: Version, r: Version, n: String) -> bool {
    &&& v.name == Some(n)
    &&& v.version == r.version
    &&& v.version_normalized == r.version_normalized
    &&& v.source == r.source
    &&& v.dist == r.dist
    &&& v.require == r.require
    &&& v.require_dev == r.require_dev
    &&& v.autoload == r.autoload
}

/// Nothing of a resolution run but the awaited package has changed.
pub open spec fn same_run(a: Context, b: Context) -> bool {
    &&& b.versions@ == a.versions@
    &&& b.hash_set@ == a.hash_set@
    &&& b.pending@ == a.pending@
    &&& b.requests@ == a.requests@
    &&& b.first_package == a.first_package
    &&& b.php_version_error@ == a.php_version_error@
    &&& b.php_extensions_error@ == a.php_extensions_error@
}

/// `after` is `before` with one task per requirement of the record labelled
/// `label` put on top, the first requirement topmost.
pub open spec fn queued(before: Seq<Task>, after: Seq<Task>, label: Seq<char>, require: Option<Require>) -> bool {
    &&& after.len() >= before.len()
    &&& after.take(before.len() as int) == before
    &&& match require {
        Some(Require::Entries(deps)) => {
            &&& after.len() == before.len() + deps.len()
            &&& forall|i: int|
                0 <= i < deps.len() ==> requirement_task_ok(
                    label,
                    deps@[i].0@,
                    deps@[i].1@,
                    #[trigger] after[before.len() + deps.len() - 1 - i],
                )
        },
        _ => after == before,
    }
}

/// The task that one requirement of the record labelled `label` gives rise to.
pub open spec fn requirement_task_ok(label: Seq<char>, dep: Seq<char>, constraint: Seq<char>, t: Task) -> bool {
    if dep == seq!['p', 'h', 'p'] {
        t matches Task::CheckPhp(l, c) && l@ == label && c@ == constraint
    } else if crate::text::occurs_at(dep, 0, seq!['e', 'x', 't', '-']) {
        t matches Task::CheckExt(l, e) && l@ == label && e@ == replace_all(
            dep,
            seq!['e', 'x', 't', '-'],
            Seq::empty(),
        )
    } else {
        t matches Task::Resolve(n, Some(c)) && n@ == dep && c@ == constraint
    }
}

/// Queues one task per requirement of a record, the first requirement on top.
fn queue_requirements(pending: &mut Vec<Task>, label: &String, require: &Option<Require>)
    ensures
        queued(old(pending)@, final(pending)@, label@, *require),
{
    if let Some(Require::Entries(deps)) = require {
        let ghost start = pending@;
        let php = vec!['p', 'h', 'p'];
        let ext = vec!['e', 'x', 't', '-'];
        let nothing: Vec<char> = Vec::new();
        assert(php@ =~= seq!['p', 'h', 'p']);
        assert(ext@ =~= seq!['e', 'x', 't', '-']);
        assert(nothing@ =~= Seq::<char>::empty());
        let mut i: usize = deps.len();
        while i > 0
            invariant
                i <= deps.len(),
                php@ == seq!['p', 'h', 'p'],
                ext@ == seq!['e', 'x', 't', '-'],
                nothing@ == Seq::<char>::empty(),
                pending.len() == start.len() + deps.len() - i,
                pending@.take(start.len() as int) == start,
                forall|k: int|
                    i <= k < deps.len() ==> requirement_task_ok(
                        label@,
                        deps[k].0@,
                        deps[k].1@,
                        #[trigger] pending@[start.len() + deps.len() - 1 - k],
                    ),
            decreases i,
        {
            i = i - 1;
            assert(deps@[i as int] == deps[i as int]);
            let dep = crate::text::to_chars(deps[i].0.as_str());
            let task = if crate::text::chars_eq(&dep, &php) {
                Task::CheckPhp(label.clone(), deps[i].1.clone())
            } else if crate::text::occurs_at_exec(&dep, 0, &ext) {
                let stripped = crate::text::replace_exec(&dep, &ext, &nothing);
                Task::CheckExt(label.clone(), from_chars(&stripped))
            } else {
                Task::Resolve(deps[i].0.clone(), Some(deps[i].1.clone()))
            };
            let ghost before = pending@;
            pending.push(task);
            assert(pending@.take(start.len() as int) =~= start) by {
                assert(before.take(start.len() as int) == start);
            }
        }
    } else {
        assert(pending@.take(pending@.len() as int) =~= pending@);
    }
}


// ---------------------------------------------------------------------------
// What holds of every locked set
// ---------------------------------------------------------------------------

/// No two records locked by a resolution run carry the same name.
pub proof fn lemma_locked_names_distinct(ctx: &Context)
    requires
        ctx.wf(),
    ensures
        forall|i: int, j: int|
            0 <= i < j < ctx.versions.len() ==> locked_name(#[trigger] ctx.versions@[i])
                != locked_name(#[trigger] ctx.versions@[j]),
{
}

/// A locked record satisfies the constraint it was first requested under, and
/// no record listed before it among its candidates does.
pub proof fn lemma_locked_satisfies_request(ctx: &Context, i: int)
    requires
        ctx.wf(),
        0 <= i < ctx.versions.len(),
        ctx.requests@[i].0 is Some,
    ensures
        satisfies(ctx.requests@[i].0->Some_0, ctx.versions@[i].version@) == Ok::<
            bool,
            ComposerError,
        >(true),
        forall|m: int|
            0 <= m < selected_index(ctx.requests@[i].1, ctx.requests@[i].0)->Ok_0 ==> satisfies(
                ctx.requests@[i].0->Some_0,
                #[trigger] ctx.requests@[i].1[m].version@,
            ) == Ok::<bool, ComposerError>(false),
{
    let (c, list) = ctx.requests@[i];
    lemma_first_satisfying_range(list, c->Some_0, 0);
    let j = selected_index(list, c)->Ok_0;
    assert forall|m: int| 0 <= m < j implies satisfies(
        c->Some_0,
        #[trigger] list[m].version@,
    ) == Ok::<bool, ComposerError>(false) by {
        lemma_first_satisfying_prefix(list, c->Some_0, 0, m);
    }
}

/// A record locked for a root requirement without a constraint is stable, and
/// no record listed before it among its candidates is: it is the most recent
/// stable one.
pub proof fn lemma_locked_root_is_newest_stable(ctx: &Context, i: int)
    requires
        ctx.wf(),
        0 <= i < ctx.versions.len(),
        ctx.requests@[i].0 is None,
    ensures
        stable_outcome(ctx.versions@[i].version@) == Ok::<bool, ComposerError>(true),
        forall|m: int|
            0 <= m < selected_index(ctx.requests@[i].1, None)->Ok_0 ==> stable_outcome(
                #[trigger] ctx.requests@[i].1[m].version@,
            ) == Ok::<bool, ComposerError>(false),
{
    let (c, list) = ctx.requests@[i];
    lemma_first_stable_range(list, 0);
    let j = selected_index(list, None)->Ok_0;
    assert forall|m: int| 0 <= m < j implies stable_outcome(
        #[trigger] list[m].version@,
    ) == Ok::<bool, ComposerError>(false) by {
        lemma_first_stable_prefix(list, 0, m);
    }
}

proof fn lemma_first_satisfying_prefix(list: Seq<Version>, c: Seq<char>, from: int, m: int)
    requires
        0 <= from <= m,
        first_satisfying(list, c, from) matches Ok(Some(j)) && m < j,
    ensures
        satisfies(c, list[m].version@) == Ok::<bool, ComposerError>(false),
    decreases m - from,
{
    lemma_first_satisfying_range(list, c, from);
    if from < m {
        lemma_first_satisfying_prefix(list, c, from + 1, m);
    }
}

proof fn lemma_first_stable_prefix(list: Seq<Version>, from: int, m: int)
    requires
        0 <= from <= m,
        first_stable(list, from) matches Ok(Some(j)) && m < j,
    ensures
        stable_outcome(list[m].version@) == Ok::<bool, ComposerError>(false),
    decreases m - from,
{
    lemma_first_stable_range(list, from);
    if from < m {
        lemma_first_stable_prefix(list, from + 1, m);
    }
}

// ---------------------------------------------------------------------------
// The lock file
// ---------------------------------------------------------------------------

/// `a` comes no later than `b` in the order of `str`'s `Ord`, which compares
/// character by character.
pub open spec fn name_le(a: Seq<char>, b: Seq<char>) -> bool
    decreases a.len(),
{
    if a.len() == 0 {
        true
    } else if b.len() == 0 {
        false
    } else if a[0] != b[0] {
        a[0] < b[0]
    } else {
        name_le(a.skip(1), b.skip(1))
    }
}

proof fn lemma_name_le_total(a: Seq<char>, b: Seq<char>)
    ensures
        name_le(a, b) || name_le(b, a),
    decreases a.len(),
{
    if a.len() > 0 && b.len() > 0 && a[0] == b[0] {
        lemma_name_le_total(a.skip(1), b.skip(1));
    }
}

proof fn lemma_name_le_trans(a: Seq<char>, b: Seq<char>, c: Seq<char>)
    requires
        name_le(a, b),
        name_le(b, c),
    ensures
        name_le(a, c),
    decreases a.len(),
{
    if a.len() > 0 && b.len() > 0 && c.len() > 0 && a[0] == b[0] && b[0] == c[0] {
        lemma_name_le_trans(a.skip(1), b.skip(1), c.skip(1));
    }
}

pub fn name_le_exec(a: &Vec<char>, b: &Vec<char>) -> (r: bool)
    ensures
        r == name_le(a@, b@),
{
    let mut i: usize = 0;
    assert(a@.skip(0) =~= a@ && b@.skip(0) =~= b@);
    while i < a.len() && i < b.len() && a[i] == b[i]
        invariant
            i <= a.len(),
            i <= b.len(),
            name_le(a@, b@) == name_le(a@.skip(i as int), b@.skip(i as int)),
        decreases a.len() - i,
    {
        assert(a@.skip(i as int).skip(1) =~= a@.skip(i + 1));
        assert(b@.skip(i as int).skip(1) =~= b@.skip(i + 1));
        i = i + 1;
    }
    if i == a.len() {
        true
    } else if i == b.len() {
        false
    } else {
        a[i] < b[i]
    }
}

fn name_chars(v: &Version) -> (r: Vec<char>)
    ensures
        r@ == locked_name(*v),
{
    match &v.name {
        Some(n) => crate::text::to_chars(n.as_str()),
        None => Vec::new(),
    }
}

/// Every record of `vs` comes no later by name than the ones after it.
pub open spec fn sorted_by_name(vs: Seq<Version>) -> bool {
    forall|i: int, j: int|
        0 <= i < j < vs.len() ==> name_le(locked_name(#[trigger] vs[i]), locked_name(#[trigger] vs[j]))
}

/// Some record of `vs` is named `n`.
pub open spec fn has_name(vs: Seq<Version>, n: Seq<char>) -> bool {
    exists|i: int| 0 <= i < vs.len() && (#[trigger] vs[i]).name is Some && locked_name(vs[i]) == n
}

proof fn lemma_has_name_push(vs: Seq<Version>, v: Version)
    ensures
        forall|n: Seq<char>|
            has_name(vs.push(v), n) <==> (has_name(vs, n) || (v.name is Some && locked_name(v)
                == n)),
{
    assert forall|n: Seq<char>|
        has_name(vs.push(v), n) <==> (has_name(vs, n) || (v.name is Some && locked_name(v)
            == n)) by {
        if has_name(vs.push(v), n) {
            let w = choose|w: int|
                0 <= w < vs.push(v).len() && (#[trigger] vs.push(v)[w]).name is Some && locked_name(
                    vs.push(v)[w],
                ) == n;
            if w < vs.len() {
                assert(vs[w] == vs.push(v)[w]);
            }
        }
        if has_name(vs, n) {
            let w = choose|w: int|
                0 <= w < vs.len() && (#[trigger] vs[w]).name is Some && locked_name(vs[w]) == n;
            assert(vs.push(v)[w] == vs[w]);
        }
        if v.name is Some && locked_name(v) == n {
            assert(vs.push(v)[vs.len() as int] == v);
        }
    }
}

proof fn lemma_in_names_push(before: Seq<String>, after: Seq<String>)
    requires
        after.len() == before.len() + 1,
        after.take(before.len() as int) == before,
    ensures
        forall|m: Seq<char>|
            in_names(after, m) <==> (in_names(before, m) || m == after.last()@),
{
    assert forall|m: Seq<char>| in_names(after, m) <==> (in_names(before, m) || m == after.last()@) by {
        if in_names(after, m) {
            let w = choose|w: int| 0 <= w < after.len() && (#[trigger] after[w])@ == m;
            if w < before.len() {
                assert(before[w] == after.take(before.len() as int)[w]);
            }
        }
        if in_names(before, m) {
            let w = choose|w: int| 0 <= w < before.len() && (#[trigger] before[w])@ == m;
            assert(after.take(before.len() as int)[w] == after[w]);
        }
        if m == after.last()@ {
            assert(after[before.len() as int]@ == m);
        }
    }
}

proof fn lemma_name_le_refl(a: Seq<char>)
    ensures
        name_le(a, a),
    decreases a.len(),
{
    if a.len() > 0 {
        lemma_name_le_refl(a.skip(1));
    }
}

proof fn lemma_name_le_antisym(a: Seq<char>, b: Seq<char>)
    requires
        name_le(a, b),
        name_le(b, a),
    ensures
        a == b,
    decreases a.len(),
{
    if a.len() > 0 && b.len() > 0 && a[0] == b[0] {
        lemma_name_le_antisym(a.skip(1), b.skip(1));
        assert(a =~= seq![a[0]] + a.skip(1));
        assert(b =~= seq![b[0]] + b.skip(1));
    } else if a.len() == 0 {
        assert(b.len() == 0);
        assert(a =~= b);
    }
}

/// Two package lists with the same records, each sorted by name and without a
/// name twice, are the same list: the order in which a lock lists its
/// packages is fixed by the packages themselves.
pub proof fn lemma_lock_order_is_canonical(a: Seq<Version>, b: Seq<Version>)
    requires
        a.to_multiset() == b.to_multiset(),
        sorted_by_name(a),
        sorted_by_name(b),
        names_distinct(a),
        names_distinct(b),
    ensures
        a == b,
    decreases a.len(),
{
    broadcast use vstd::seq_lib::group_to_multiset_ensures;

    vstd::seq_lib::to_multiset_len(a);
    vstd::seq_lib::to_multiset_len(b);
    if a.len() == 0 {
        assert(a =~= b);
    } else {
        let x = a[0];
        let y = b[0];
        vstd::seq_lib::to_multiset_contains(a, x);
        vstd::seq_lib::to_multiset_contains(b, y);
        assert(a.contains(x));
        assert(b.contains(y));
        vstd::seq_lib::to_multiset_contains(b, x);
        vstd::seq_lib::to_multiset_contains(a, y);
        let j = choose|j: int| 0 <= j < b.len() && b[j] == x;
        let i = choose|i: int| 0 <= i < a.len() && a[i] == y;
        lemma_name_le_refl(locked_name(x));
        if i > 0 {
            assert(name_le(locked_name(a[0]), locked_name(a[i])));
        }
        if j > 0 {
            assert(name_le(locked_name(b[0]), locked_name(b[j])));
        }
        lemma_name_le_antisym(locked_name(x), locked_name(y));
        if i != 0 {
            assert(locked_name(a[0]) != locked_name(a[i]));
        }
        assert(x == y);
        let ra = a.drop_first();
        let rb = b.drop_first();
        vstd::seq_lib::to_multiset_remove(a, 0);
        vstd::seq_lib::to_multiset_remove(b, 0);
        assert(a.remove(0) =~= ra);
        assert(b.remove(0) =~= rb);
        assert forall|p: int, q: int| 0 <= p < q < ra.len() implies name_le(
            locked_name(#[trigger] ra[p]),
            locked_name(#[trigger] ra[q]),
        ) by {
            assert(ra[p] == a[p + 1] && ra[q] == a[q + 1]);
        }
        assert forall|p: int, q: int| 0 <= p < q < rb.len() implies name_le(
            locked_name(#[trigger] rb[p]),
            locked_name(#[trigger] rb[q]),
        ) by {
            assert(rb[p] == b[p + 1] && rb[q] == b[q + 1]);
        }
        assert forall|p: int, q: int| 0 <= p < q < ra.len() implies locked_name(#[trigger] ra[p])
            != locked_name(#[trigger] ra[q]) by {
            assert(ra[p] == a[p + 1] && ra[q] == a[q + 1]);
        }
        assert forall|p: int, q: int| 0 <= p < q < rb.len() implies locked_name(#[trigger] rb[p])
            != locked_name(#[trigger] rb[q]) by {
            assert(rb[p] == b[p + 1] && rb[q] == b[q + 1]);
        }
        lemma_lock_order_is_canonical(ra, rb);
        assert(a =~= seq![x] + ra);
        assert(b =~= seq![y] + rb);
    }
}

/// The resolved set as it is written to the lock file.
#[derive(Debug)]
pub struct ComposerLock {
    pub packages: Vec<Version>,
}

impl ComposerLock {
    /// The records locked by a finished run, sorted by name.
    pub fn new(ctx: Context) -> (r: Self)
        requires
            ctx.wf(),
        ensures
            r.packages@.to_multiset() == ctx.versions@.to_multiset(),
            sorted_by_name(r.packages@),
            names_distinct(r.packages@),
            sorted_by_name(ctx.versions@) ==> r.packages@ == ctx.versions@,
    {
        broadcast use vstd::seq_lib::group_to_multiset_ensures;

        let ghost all = ctx.versions@;
        let mut rest = ctx.versions;
        let mut packages: Vec<Version> = Vec::new();
        while rest.len() > 0
            invariant
                sorted_by_name(packages@),
                packages@.to_multiset().add(rest@.to_multiset()) == all.to_multiset(),
                names_distinct(packages@),
                names_distinct(rest@),
                forall|i: int, j: int|
                    0 <= i < packages@.len() && 0 <= j < rest@.len() ==> locked_name(
                        #[trigger] packages@[i],
                    ) != locked_name(#[trigger] rest@[j]),
            decreases rest.len(),
        {
            let ghost before_rest = rest@;
            let v = rest.pop().unwrap();
            assert(before_rest =~= rest@.push(v));
            let key = name_chars(&v);
            let mut p: usize = 0;
            while p < packages.len() && name_le_exec(&name_chars(&packages[p]), &key)
                invariant
                    p <= packages.len(),
                    key@ == locked_name(v),
                    forall|m: int| 0 <= m < p ==> name_le(locked_name(#[trigger] packages@[m]), key@),
                decreases packages.len() - p,
            {
                p = p + 1;
            }
            let ghost before = packages@;
            proof {
                if p < before.len() {
                    lemma_name_le_total(locked_name(before[p as int]), key@);
                    assert forall|m: int| p <= m < before.len() implies name_le(
                        key@,
                        locked_name(#[trigger] before[m]),
                    ) by {
                        if m > p {
                            lemma_name_le_trans(key@, locked_name(before[p as int]), locked_name(before[m]));
                        }
                    }
                }
            }
            packages.insert(p, v);
            proof {
                before.insert_ensures(p as int, v);
                assert(packages@ == before.insert(p as int, v));
                assert forall|j: int| 0 <= j < rest@.len() implies locked_name(v) != locked_name(
                    #[trigger] rest@[j],
                ) by {
                    assert(before_rest[j] == rest@[j]);
                    assert(before_rest[rest@.len() as int] == v);
                }
                assert forall|i: int, j: int| 0 <= i < j < packages@.len() implies locked_name(
                    #[trigger] packages@[i],
                ) != locked_name(#[trigger] packages@[j]) by {
                    if j < p {
                    } else if i < p && j == p {
                        assert(before_rest[rest@.len() as int] == v);
                        assert(before_rest =~= rest@.push(v));
                    } else if i < p && j > p {
                        assert(packages@[j] == before[j - 1]);
                    } else if i == p {
                        assert(packages@[j] == before[j - 1]);
                        assert(before_rest[rest@.len() as int] == v);
                    } else {
                        assert(packages@[i] == before[i - 1]);
                        assert(packages@[j] == before[j - 1]);
                    }
                }
                assert forall|i: int, j: int|
                    0 <= i < packages@.len() && 0 <= j < rest@.len() implies locked_name(
                    #[trigger] packages@[i],
                ) != locked_name(#[trigger] rest@[j]) by {
                    assert(before_rest[j] == rest@[j]);
                    if i < p {
                    } else if i == p {
                        assert(before_rest[rest@.len() as int] == v);
                    } else {
                        assert(packages@[i] == before[i - 1]);
                    }
                }
                assert forall|i: int, j: int| 0 <= i < j < packages@.len() implies name_le(
                    locked_name(#[trigger] packages@[i]),
                    locked_name(#[trigger] packages@[j]),
                ) by {
                    if j < p {
                    } else if i < p && j == p {
                    } else if i < p && j > p {
                        assert(packages@[j] == before[j - 1]);
                    } else if i == p {
                        assert(packages@[j] == before[j - 1]);
                    } else {
                        assert(packages@[i] == before[i - 1]);
                        assert(packages@[j] == before[j - 1]);
                    }
                }
                vstd::seq_lib::to_multiset_insert(before, p as int, v);
                vstd::seq_lib::to_multiset_build(rest@, v);
                assert(packages@.to_multiset() == before.to_multiset().insert(v));
                assert(before_rest.to_multiset() == rest@.to_multiset().insert(v));
                assert(packages@.to_multiset().add(rest@.to_multiset()) =~= before.to_multiset().add(
                    before_rest.to_multiset(),
                ));
            }
        }
        assert(rest@.to_multiset() =~= vstd::multiset::Multiset::empty());
        assert(packages@.to_multiset().add(rest@.to_multiset()) =~= packages@.to_multiset());
        proof {
            if sorted_by_name(all) {
                lemma_lock_order_is_canonical(packages@, all);
            }
        }
        ComposerLock { packages }
    }

    /// The names of this lock's records that `new_lock` no longer holds.
    pub fn get_deleteing_packages(&self, new_lock: &ComposerLock) -> (r: Result<
        Vec<String>,
        ComposerError,
    >)
        ensures
            r matches Ok(names) && (forall|n: Seq<char>|
                in_names(names@, n) <==> has_name(self.packages@, n) && !has_name(
                    new_lock.packages@,
                    n,
                )),
    {
        let mut names: Vec<String> = Vec::new();
        let mut i: usize = 0;
        assert(self.packages@.take(0) =~= Seq::<Version>::empty());
        while i < self.packages.len()
            invariant
                i <= self.packages.len(),
                forall|n: Seq<char>|
                    in_names(names@, n) <==> has_name(self.packages@.take(i as int), n) && !has_name(
                        new_lock.packages@,
                        n,
                    ),
            decreases self.packages.len() - i,
        {
            let ghost before = names@;
            assert(self.packages@.take(i + 1) =~= self.packages@.take(i as int).push(
                self.packages@[i as int],
            ));
            proof {
                lemma_has_name_push(self.packages@.take(i as int), self.packages@[i as int]);
            }
            if let Some(n) = &self.packages[i].name {
                if new_lock.find_version(n.as_str()).is_none() {
                    names.push(n.clone());
                    proof {
                        assert(names@.take(before.len() as int) =~= before);
                        lemma_in_names_push(before, names@);
                    }
                }
            }
            i = i + 1;
        }
        assert(self.packages@.take(i as int) =~= self.packages@);
        Ok(names)
    }

    /// The first record named `name`.
    pub fn find_version(&self, name: &str) -> (r: Option<&Version>)
        ensures
            match r {
                Some(v) => exists|i: int|
                    0 <= i < self.packages.len() && self.packages@[i] == *v && v.name is Some
                        && locked_name(*v) == name@ && forall|k: int|
                        0 <= k < i ==> !((#[trigger] self.packages@[k]).name is Some && locked_name(
                            self.packages@[k],
                        ) == name@),
                None => forall|k: int|
                    0 <= k < self.packages.len() ==> !((#[trigger] self.packages@[k]).name is Some
                        && locked_name(self.packages@[k]) == name@),
            },
    {
        let wanted = name.to_owned();
        let mut i: usize = 0;
        while i < self.packages.len()
            invariant
                i <= self.packages.len(),
                wanted@ == name@,
                forall|k: int|
                    0 <= k < i ==> !((#[trigger] self.packages@[k]).name is Some && locked_name(
                        self.packages@[k],
                    ) == name@),
            decreases self.packages.len() - i,
        {
            if let Some(n) = &self.packages[i].name {
                if *n == wanted {
                    return Some(&self.packages[i]);
                }
            }
            i = i + 1;
        }
        None
    }
}


// ---------------------------------------------------------------------------
// Cache keys
// ---------------------------------------------------------------------------

/// `s` with every `:` and `/` replaced by `-`.
pub open spec fn dashed(s: Seq<char>) -> Seq<char> {
    s.map_values(|c: char| if c == ':' || c == '/' { '-' } else { c })
}

/// `s` with every `/` replaced by `-`.
pub open spec fn slash_dashed(s: Seq<char>) -> Seq<char> {
    s.map_values(|c: char| if c == '/' { '-' } else { c })
}

fn map_chars(s: &str, colon_too: bool) -> (r: String)
    ensures
        colon_too ==> r@ == dashed(s@),
        !colon_too ==> r@ == slash_dashed(s@),
{
    let chars = crate::text::to_chars(s);
    let mut r = String::new();
    let mut i: usize = 0;
    while i < chars.len()
        invariant
            i <= chars.len(),
            chars@ == s@,
            colon_too ==> r@ == dashed(s@.take(i as int)),
            !colon_too ==> r@ == slash_dashed(s@.take(i as int)),
        decreases chars.len() - i,
    {
        let c = chars[i];
        if c == '/' || (colon_too && c == ':') {
            r.push('-');
        } else {
            r.push(c);
        }
        i = i + 1;
        assert(dashed(s@.take(i as int)) =~= dashed(s@.take(i - 1)).push(dashed(s@)[i - 1]));
        assert(slash_dashed(s@.take(i as int)) =~= slash_dashed(s@.take(i - 1)).push(
            slash_dashed(s@)[i - 1],
        ));
    }
    assert(s@.take(i as int) =~= s@);
    r
}

impl P2 {
    /// The directory, under the metadata cache, of the registry at `p2_url`:
    /// the URL with every `:` and `/` replaced by `-`.
    pub fn repo_dir_name(p2_url: &str) -> (r: String)
        ensures
            r@ == dashed(p2_url@),
    {
        map_chars(p2_url, true)
    }

    /// The cache file of a package's metadata: `provider-<vendor>-<name>.json`.
    pub fn provider_file_name(name: &str) -> (r: String)
        ensures
            r@ == seq!['p', 'r', 'o', 'v', 'i', 'd', 'e', 'r', '-'] + slash_dashed(name@) + seq![
                '.',
                'j',
                's',
                'o',
                'n',
            ],
    {
        let mut r = String::new();
        crate::text::push_str(&mut r, "provider-");
        let body = map_chars(name, false);
        crate::text::push_str(&mut r, body.as_str());
        crate::text::push_str(&mut r, ".json");
        proof {
            reveal_strlit("provider-");
            reveal_strlit(".json");
        }
        assert(r@ =~= seq!['p', 'r', 'o', 'v', 'i', 'd', 'e', 'r', '-'] + slash_dashed(name@) + seq![
            '.',
            'j',
            's',
            'o',
            'n',
        ]);
        r
    }
}

impl ComposerLock {
    /// The archive file of a version in the archive cache: the hex SHA-1 of the
    /// version text, then `.zip`.
    pub fn archive_file_name(version: &str) -> (r: String)
        ensures
            r@ == crate::digest::hex_of(crate::digest::sha1_of(vstd::utf8::encode_utf8(version@))) + seq![
                '.',
                'z',
                'i',
                'p',
            ],
    {
        let mut r = crate::digest::sha1_hex(version);
        crate::text::push_str(&mut r, ".zip");
        proof {
            reveal_strlit(".zip");
        }
        assert(r@ =~= crate::digest::hex_of(crate::digest::sha1_of(vstd::utf8::encode_utf8(version@))) + seq![
            '.',
            'z',
            'i',
            'p',
        ]);
        r
    }
}

} // verus!
