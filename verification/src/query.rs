//! Pure parts of the upstream-metadata client: the registry's info URL,
//! dependency filtering against the base-distribution cache, and parsing of
//! the recipe probe's process output.

use vstd::prelude::*;
use vstd::string::StringExecFns;
use crate::numbers::{parse_i64, parse_i64_str};
use crate::state::contains_string;
use crate::strutil::str_to_chars;
use crate::json_ext::{json_doc_of, json_model, JsonVal};

verus! {

/// What a recipe probe learns about one package.
#[derive(Clone)]
pub struct PackageData {
    pub name: String,
    pub last_modified: i64,
    pub depends: Vec<String>,
}

/// The ways the upstream-metadata client fails. Messages of outside
/// libraries and processes are carried as plain strings.
#[derive(Debug)]
pub enum Error {
    /// The network request to the registry failed.
    Request(String),
    /// The registry's response is not the expected JSON document.
    Deserialize(String),
    /// Reading or writing the scratch checkout failed.
    Io(String),
    /// The scratch directory has no usable path.
    TempDirPath,
    /// The checkout holds no `PKGBUILD` recipe.
    PkgbuildMissing,
    /// The recipe declares no package name.
    PkgbuildNameMissing,
    /// The checkout's commit timestamp is not a decimal integer.
    FailedToParseTimestamp,
    /// Cloning the source URL failed; holds the tool's error text.
    FailedToClone(String),
}

/// A dependency entry is kept iff it is not served by the base distribution
/// and is not a version-bounded expression.
pub open spec fn dep_ok(cache: Seq<Seq<char>>, d: Seq<char>) -> bool {
    !cache.contains(d) && !d.contains('<') && !d.contains('>') && !d.contains('=')
}

/// The dependency entries that survive filtering, in first-occurrence order
/// and without duplicates: the list stands for a set of names.
pub open spec fn filtered_deps(deps: Seq<Seq<char>>, cache: Seq<Seq<char>>) -> Seq<Seq<char>>
    decreases deps.len(),
{
    if deps.len() == 0 {
        Seq::empty()
    } else {
        let rest = filtered_deps(deps.drop_last(), cache);
        if dep_ok(cache, deps.last()) && !rest.contains(deps.last()) {
            rest.push(deps.last())
        } else {
            rest
        }
    }
}

/// Whether the string holds a version-bound character (`<`, `>` or `=`).
fn has_version_bound(s: &String) -> (r: bool)
    ensures
        r == (s@.contains('<') || s@.contains('>') || s@.contains('=')),
{
    let chars = str_to_chars(s.as_str());
    let n = chars.len();
    let mut i: usize = 0;
    while i < n
        invariant
            i <= n,
            n == s@.len(),
            chars@ == s@,
            forall|j: int| 0 <= j < i ==> s@[j] != '<' && s@[j] != '>' && s@[j] != '=',
        decreases n - i,
    {
        let c = chars[i];
        if c == '<' || c == '>' || c == '=' {
            return true;
        }
        i += 1;
    }
    proof {
        if s@.contains('<') {
            let j = choose|j: int| 0 <= j < s@.len() && s@[j] == '<';
            assert(s@[j] != '<');
        }
        if s@.contains('>') {
            let j = choose|j: int| 0 <= j < s@.len() && s@[j] == '>';
            assert(s@[j] != '>');
        }
        if s@.contains('=') {
            let j = choose|j: int| 0 <= j < s@.len() && s@[j] == '=';
            assert(s@[j] != '=');
        }
    }
    false
}

/// Drops dependency entries that the base distribution serves or that carry
/// a version bound, and collapses duplicates: the result stands for the
/// entry's dependency set.
pub fn filter_dependencies(deps: &Vec<String>, cache: &Vec<String>) -> (r: Vec<String>)
    ensures
        r.deep_view() == filtered_deps(deps.deep_view(), cache.deep_view()),
{
    let mut r: Vec<String> = Vec::new();
    let n = deps.len();
    let mut i: usize = 0;
    while i < n
        invariant
            i <= n,
            n == deps@.len(),
            r.deep_view() =~= filtered_deps(deps.deep_view().take(i as int), cache.deep_view()),
        decreases n - i,
    {
        proof {
            assert(deps.deep_view().take(i + 1).drop_last() =~= deps.deep_view().take(i as int));
            assert(deps.deep_view().take(i + 1).last() == deps.deep_view()[i as int]);
            assert(deps.deep_view()[i as int] == deps@[i as int]@);
        }
        let in_cache = contains_string(cache, &deps[i]);
        if !in_cache && !has_version_bound(&deps[i]) && !contains_string(&r, &deps[i]) {
            r.push(deps[i].clone());
        }
        proof {
            assert(r.deep_view() =~= filtered_deps(
                deps.deep_view().take(i + 1),
                cache.deep_view(),
            ));
        }
        i += 1;
    }
    proof {
        assert(deps.deep_view().take(n as int) =~= deps.deep_view());
    }
    r
}

/// The parts of `s` between occurrences of `sep`, joined back with `sep`.
pub open spec fn joined_with(parts: Seq<Seq<char>>, sep: char) -> Seq<char>
    decreases parts.len(),
{
    if parts.len() == 0 {
        Seq::empty()
    } else if parts.len() == 1 {
        parts[0]
    } else {
        joined_with(parts.drop_last(), sep) + seq![sep] + parts.last()
    }
}

/// Splits on every occurrence of `sep`. The contract pins the result: the
/// parts are separator-free and joining them with `sep` gives `s` back.
pub fn split_chars(s: &Vec<char>, sep: char) -> (parts: Vec<Vec<char>>)
    ensures
        parts@.len() >= 1,
        joined_with(parts.deep_view(), sep) == s@,
        forall|k: int| 0 <= k < parts@.len() ==> !parts.deep_view()[k].contains(sep),
{
    let mut parts: Vec<Vec<char>> = Vec::new();
    let mut cur: Vec<char> = Vec::new();
    let n = s.len();
    let mut i: usize = 0;
    while i < n
        invariant
            i <= n,
            n == s@.len(),
            joined_with(parts.deep_view().push(cur@), sep) =~= s@.take(i as int),
            !cur@.contains(sep),
            forall|k: int| 0 <= k < parts@.len() ==> !parts.deep_view()[k].contains(sep),
        decreases n - i,
    {
        let ghost oldparts = parts.deep_view();
        let ghost oldcur = cur@;
        let c = s[i];
        if c == sep {
            parts.push(cur);
            cur = Vec::new();
            proof {
                assert(parts.deep_view() =~~= oldparts.push(oldcur));
                lemma_joined_push(oldparts.push(oldcur), Seq::empty(), sep);
                assert(joined_with(oldparts.push(oldcur), sep) + seq![sep] =~= s@.take(i + 1));
            }
        } else {
            cur.push(c);
            proof {
                lemma_joined_last(oldparts, oldcur, sep);
                lemma_joined_last(oldparts, cur@, sep);
                assert(cur@ =~= oldcur.push(c));
                assert(joined_with(oldparts.push(cur@), sep) =~= s@.take(i + 1));
            }
        }
        i += 1;
    }
    proof {
        assert(s@.take(n as int) =~= s@);
    }
    let ghost oldparts = parts.deep_view();
    let ghost oldcur = cur@;
    parts.push(cur);
    proof {
        assert(parts.deep_view() =~~= oldparts.push(oldcur));
        assert forall|k: int| 0 <= k < parts@.len()
            implies !(#[trigger] parts.deep_view()[k]).contains(sep) by {
            if k < parts@.len() - 1 {
                assert(parts.deep_view()[k] == oldparts[k]);
            } else {
                assert(parts.deep_view()[k] == oldcur);
            }
        }
    }
    parts
}

/// Joining `parts.push(x)` appends a separator (when `parts` is non-empty)
/// and then `x`.
proof fn lemma_joined_push(parts: Seq<Seq<char>>, x: Seq<char>, sep: char)
    ensures
        parts.len() == 0 ==> joined_with(parts.push(x), sep) == x,
        parts.len() > 0 ==> joined_with(parts.push(x), sep) == joined_with(parts, sep)
            + seq![sep] + x,
{
    let p = parts.push(x);
    if parts.len() == 0 {
        assert(p.len() == 1);
        assert(p[0] == x);
    } else {
        assert(p.drop_last() =~= parts);
        assert(p.last() == x);
    }
}

/// Joining `parts.push(x)`, for callers outside this module.
pub proof fn lemma_joined_push_pub(parts: Seq<Seq<char>>, x: Seq<char>, sep: char)
    ensures
        parts.len() == 0 ==> joined_with(parts.push(x), sep) == x,
        parts.len() > 0 ==> joined_with(parts.push(x), sep) == joined_with(parts, sep)
            + seq![sep] + x,
{
    lemma_joined_push(parts, x, sep);
}

/// Same as `lemma_joined_push`, phrased on a list that already ends in `x`.
proof fn lemma_joined_last(parts: Seq<Seq<char>>, x: Seq<char>, sep: char)
    ensures
        parts.len() == 0 ==> joined_with(parts.push(x), sep) == x,
        parts.len() > 0 ==> joined_with(parts.push(x), sep) == joined_with(parts, sep)
            + seq![sep] + x,
{
    lemma_joined_push(parts, x, sep);
}

/// The first line of a text: everything before the first newline.
pub open spec fn first_line(s: Seq<char>) -> Seq<char>
    decreases s.len(),
{
    if s.len() == 0 {
        s
    } else if s[0] == '\n' {
        Seq::empty()
    } else {
        seq![s[0]] + first_line(s.skip(1))
    }
}

/// The text after the first newline, if there is one.
pub open spec fn after_first_line(s: Seq<char>) -> Option<Seq<char>>
    decreases s.len(),
{
    if s.len() == 0 {
        None
    } else if s[0] == '\n' {
        Some(s.skip(1))
    } else {
        after_first_line(s.skip(1))
    }
}

/// Splits a text at its first newline: the first line, and what follows.
fn split_first_line(s: &Vec<char>) -> (r: (Vec<char>, Option<Vec<char>>))
    ensures
        r.0@ == first_line(s@),
        match r.1 {
            Some(rest) => after_first_line(s@) == Some(rest@),
            None => after_first_line(s@) is None,
        },
{
    let n = s.len();
    proof {
        assert(s@.skip(0) =~= s@);
        assert(s@.take(0) + first_line(s@) =~= first_line(s@));
    }
    let mut i: usize = 0;
    while i < n
        invariant
            i <= n,
            n == s@.len(),
            forall|j: int| 0 <= j < i ==> s@[j] != '\n',
            first_line(s@) == s@.take(i as int) + first_line(s@.skip(i as int)),
            after_first_line(s@) == after_first_line(s@.skip(i as int)),
        decreases n - i,
    {
        if s[i] == '\n' {
            let mut line: Vec<char> = Vec::new();
            let mut k: usize = 0;
            while k < i
                invariant
                    k <= i,
                    i < n,
                    n == s@.len(),
                    line@ =~= s@.take(i as int).take(k as int),
                decreases i - k,
            {
                line.push(s[k]);
                proof {
                    assert(line@ =~= s@.take(i as int).take(k + 1));
                }
                k += 1;
            }
            let mut rest: Vec<char> = Vec::new();
            let mut m: usize = i + 1;
            while m < n
                invariant
                    i + 1 <= m <= n,
                    n == s@.len(),
                    rest@ =~= s@.skip(i + 1).take(m - i - 1),
                decreases n - m,
            {
                rest.push(s[m]);
                proof {
                    assert(rest@ =~= s@.skip(i + 1).take(m + 1 - i - 1));
                }
                m += 1;
            }
            proof {
                assert(s@.take(i as int).take(i as int) =~= s@.take(i as int));
                assert(s@.skip(i + 1).take(n - i - 1) =~= s@.skip(i + 1));
                assert(first_line(s@.skip(i as int)) =~= Seq::<char>::empty());
                assert(first_line(s@) =~= s@.take(i as int));
                assert(after_first_line(s@.skip(i as int)) == Some(s@.skip(i as int).skip(1)));
                assert(s@.skip(i as int).skip(1) =~= s@.skip(i + 1));
            }
            return (line, Some(rest));
        }
        proof {
            let tail = s@.skip(i as int);
            assert(tail[0] == s@[i as int]);
            assert(tail.skip(1) =~= s@.skip(i + 1));
            assert(first_line(tail) == seq![tail[0]] + first_line(tail.skip(1)));
            assert(s@.take(i + 1) =~= s@.take(i as int) + seq![s@[i as int]]);
            assert(s@.take(i as int) + first_line(tail) =~= s@.take(i + 1) + first_line(
                s@.skip(i + 1),
            ));
        }
        i += 1;
    }
    proof {
        assert(s@.skip(n as int).len() == 0);
        assert(first_line(s@) =~= s@.take(n as int));
        assert(s@.take(n as int) =~= s@);
    }
    let line = crate::strutil::clone_char_vec(s);
    (line, None)
}

/// Parses what the recipe probe's shell step printed: the package name on
/// the first line, the merged dependency list on the second. Dependencies
/// are filtered against the base-distribution cache. Fails only on empty
/// output, which means the recipe declared no name.
pub fn parse_pkgbuild_output(stdout: &Vec<char>, cache: &Vec<String>) -> (r: Result<
    (String, Vec<String>),
    Error,
>)
    ensures
        r is Err <==> stdout@.len() == 0,
        r matches Err(e) ==> e is PkgbuildNameMissing,
        r matches Ok(p) ==> p.0@ == first_line(stdout@),
        r matches Ok(p) ==> match after_first_line(stdout@) {
            Some(rest) => exists|tokens: Seq<Seq<char>>|
                joined_with(tokens, ' ') == first_line(rest)
                    && (forall|k: int| 0 <= k < tokens.len()
                        ==> !(#[trigger] tokens[k]).contains(' '))
                    && p.1.deep_view() == filtered_deps(tokens, cache.deep_view()),
            None => p.1.deep_view() =~= Seq::<Seq<char>>::empty(),
        },
{
    if stdout.len() == 0 {
        return Err(Error::PkgbuildNameMissing);
    }
    let (line1, rest) = split_first_line(stdout);
    let name = crate::strutil::chars_to_string(&line1);
    match rest {
        Some(rest_chars) => {
            let (line2, _rest2) = split_first_line(&rest_chars);
            let tokens = split_chars(&line2, ' ');
            let mut words: Vec<String> = Vec::new();
            let tn = tokens.len();
            let mut i: usize = 0;
            while i < tn
                invariant
                    i <= tn,
                    tn == tokens@.len(),
                    words.deep_view() =~= tokens.deep_view().take(i as int),
                decreases tn - i,
            {
                words.push(crate::strutil::chars_to_string(&tokens[i]));
                proof {
                    assert(tokens.deep_view()[i as int] == tokens@[i as int]@);
                    assert(tokens.deep_view().take(i + 1) =~= tokens.deep_view().take(
                        i as int,
                    ).push(tokens.deep_view()[i as int]));
                    assert(words.deep_view() =~= tokens.deep_view().take(i + 1));
                }
                i += 1;
            }
            proof {
                assert(tokens.deep_view().take(tn as int) =~= tokens.deep_view());
            }
            let deps = filter_dependencies(&words, cache);
            Ok((name, deps))
        },
        None => {
            let deps: Vec<String> = Vec::new();
            Ok((name, deps))
        },
    }
}

/// Whitespace as the timestamp trim understands it.
pub open spec fn is_space(c: char) -> bool {
    c == ' ' || c == '\n' || c == '\t' || c == '\r'
}

pub open spec fn trim_front(s: Seq<char>) -> Seq<char>
    decreases s.len(),
{
    if s.len() > 0 && is_space(s[0]) {
        trim_front(s.skip(1))
    } else {
        s
    }
}

pub open spec fn trim_back(s: Seq<char>) -> Seq<char>
    decreases s.len(),
{
    if s.len() > 0 && is_space(s.last()) {
        trim_back(s.drop_last())
    } else {
        s
    }
}

/// The text with leading and trailing whitespace removed.
pub open spec fn trimmed(s: Seq<char>) -> Seq<char> {
    trim_back(trim_front(s))
}

fn is_space_char(c: char) -> (r: bool)
    ensures
        r == is_space(c),
{
    c == ' ' || c == '\n' || c == '\t' || c == '\r'
}

/// Parses the commit timestamp that `git show -s --format=%ct HEAD` printed:
/// the trimmed output must be one decimal integer.
pub fn parse_timestamp(out: &Vec<char>) -> (r: Result<i64, Error>)
    ensures
        match r {
            Ok(v) => parse_i64_str(trimmed(out@)) == Some(v),
            Err(e) => parse_i64_str(trimmed(out@)) is None && e is FailedToParseTimestamp,
        },
{
    let n = out.len();
    proof {
        assert(out@.skip(0) =~= out@);
    }
    let mut lo: usize = 0;
    while lo < n && is_space_char(out[lo])
        invariant
            lo <= n,
            n == out@.len(),
            trim_front(out@) == trim_front(out@.skip(lo as int)),
        decreases n - lo,
    {
        proof {
            let tail = out@.skip(lo as int);
            assert(tail[0] == out@[lo as int]);
            assert(tail.skip(1) =~= out@.skip(lo + 1));
        }
        lo += 1;
    }
    proof {
        let tail = out@.skip(lo as int);
        if tail.len() > 0 {
            assert(tail[0] == out@[lo as int]);
        }
        assert(trim_front(out@) == tail);
    }
    proof {
        assert(out@.skip(lo as int).take(n - lo) =~= out@.skip(lo as int));
    }
    let mut hi: usize = n;
    while hi > lo && is_space_char(out[hi - 1])
        invariant
            lo <= hi <= n,
            n == out@.len(),
            trim_front(out@) == out@.skip(lo as int),
            trim_back(out@.skip(lo as int)) == trim_back(out@.skip(lo as int).take(hi - lo)),
        decreases hi,
    {
        proof {
            let part = out@.skip(lo as int).take(hi - lo);
            assert(part.last() == out@[hi - 1]);
            assert(part.drop_last() =~= out@.skip(lo as int).take(hi - 1 - lo));
        }
        hi -= 1;
    }
    proof {
        let part = out@.skip(lo as int).take(hi - lo);
        if part.len() > 0 {
            assert(part.last() == out@[hi - 1]);
        }
        assert(trim_back(out@.skip(lo as int)) == part);
    }
    let mut t: Vec<char> = Vec::new();
    let mut i: usize = lo;
    while i < hi
        invariant
            lo <= i <= hi <= n,
            n == out@.len(),
            t@ =~= out@.skip(lo as int).take(i - lo),
        decreases hi - i,
    {
        t.push(out[i]);
        proof {
            assert(t@ =~= out@.skip(lo as int).take(i + 1 - lo));
        }
        i += 1;
    }
    proof {
        assert(t@ =~= trimmed(out@));
    }
    match parse_i64(&t) {
        Some(v) => Ok(v),
        None => Err(Error::FailedToParseTimestamp),
    }
}

/// The registry's batch-info URL for a set of names: each name as one
/// repeated query argument.
pub open spec fn info_url_args(names: Seq<Seq<char>>) -> Seq<char>
    decreases names.len(),
{
    if names.len() == 0 {
        Seq::empty()
    } else if names.len() == 1 {
        "arg[]="@ + names[0]
    } else {
        info_url_args(names.drop_last()) + "&"@ + "arg[]="@ + names.last()
    }
}

pub open spec fn info_url(names: Seq<Seq<char>>) -> Seq<char> {
    "https://aur.archlinux.org/rpc/v5/info?"@ + info_url_args(names)
}

/// Builds the registry's batch-info URL for the given package names.
pub fn aur_info_url(packages: &Vec<String>) -> (r: String)
    ensures
        r@ == info_url(packages.deep_view()),
{
    let mut r = String::from_str("https://aur.archlinux.org/rpc/v5/info?");
    let n = packages.len();
    let mut i: usize = 0;
    while i < n
        invariant
            i <= n,
            n == packages@.len(),
            r@ =~= "https://aur.archlinux.org/rpc/v5/info?"@ + info_url_args(
                packages.deep_view().take(i as int),
            ),
        decreases n - i,
    {
        proof {
            assert(packages.deep_view().take(i + 1).drop_last() =~= packages.deep_view().take(
                i as int,
            ));
            assert(packages.deep_view().take(i + 1).last() == packages@[i as int]@);
        }
        if i > 0 {
            r.append("&");
        }
        r.append("arg[]=");
        r.append(packages[i].as_str());
        proof {
            assert(r@ =~= "https://aur.archlinux.org/rpc/v5/info?"@ + info_url_args(
                packages.deep_view().take(i + 1),
            ));
        }
        i += 1;
    }
    proof {
        assert(packages.deep_view().take(n as int) =~= packages.deep_view());
    }
    r
}

/// Splits what the package manager's name listing printed into one name per
/// line. The parts are newline-free and join back to the full output.
pub fn parse_pacman_cache(out: &str) -> (r: Vec<String>)
    ensures
        joined_with(r.deep_view(), '\n') == out@,
        forall|k: int| 0 <= k < r@.len() ==> !(#[trigger] r.deep_view()[k]).contains('\n'),
{
    let chars = str_to_chars(out);
    let parts = split_chars(&chars, '\n');
    let mut r: Vec<String> = Vec::new();
    let n = parts.len();
    let mut i: usize = 0;
    while i < n
        invariant
            i <= n,
            n == parts@.len(),
            r.deep_view() =~= parts.deep_view().take(i as int),
        decreases n - i,
    {
        r.push(crate::strutil::chars_to_string(&parts[i]));
        proof {
            assert(parts.deep_view()[i as int] == parts@[i as int]@);
            assert(parts.deep_view().take(i + 1) =~= parts.deep_view().take(i as int).push(
                parts.deep_view()[i as int],
            ));
            assert(r.deep_view() =~= parts.deep_view().take(i + 1));
        }
        i += 1;
    }
    proof {
        assert(parts.deep_view().take(n as int) =~= parts.deep_view());
    }
    r
}


/// Every dependency that survives the filter satisfies the filter predicate.
pub proof fn lemma_filtered_deps_ok(deps: Seq<Seq<char>>, cache: Seq<Seq<char>>, k: int)
    requires
        0 <= k < filtered_deps(deps, cache).len(),
    ensures
        dep_ok(cache, filtered_deps(deps, cache)[k]),
    decreases deps.len(),
{
    if deps.len() > 0 {
        let rest = filtered_deps(deps.drop_last(), cache);
        if k < rest.len() {
            lemma_filtered_deps_ok(deps.drop_last(), cache, k);
        }
    }
}

/// The surviving dependencies are pairwise distinct: the list is a set.
pub proof fn lemma_filtered_deps_unique(deps: Seq<Seq<char>>, cache: Seq<Seq<char>>, a: int, b: int)
    requires
        0 <= a < b < filtered_deps(deps, cache).len(),
    ensures
        filtered_deps(deps, cache)[a] != filtered_deps(deps, cache)[b],
    decreases deps.len(),
{
    if deps.len() > 0 {
        let rest = filtered_deps(deps.drop_last(), cache);
        if b < rest.len() {
            lemma_filtered_deps_unique(deps.drop_last(), cache, a, b);
        } else {
            assert(rest.contains(rest[a]));
        }
    }
}

/// What a list of parsed values denotes as a list of strings: the contents
/// of each, or nothing when one is no string.
pub open spec fn str_items_of(ds: Seq<JsonVal>) -> Option<Seq<Seq<char>>>
    decreases ds.len(),
{
    if ds.len() == 0 {
        Some(Seq::empty())
    } else {
        match (str_items_of(ds.drop_last()), ds.last()) {
            (Some(ss), JsonVal::Str(s)) => Some(ss.push(s)),
            _ => None,
        }
    }
}

/// What one entry of the registry's `results` array denotes: its canonical
/// name, its upstream modification time, and its raw dependency names — or
/// nothing when a field is missing or of the wrong shape.
pub open spec fn result_entry_of(v: JsonVal) -> Option<(Seq<char>, i64, Seq<Seq<char>>)> {
    match v {
        JsonVal::Obj(m) => if m.dom().contains("Name"@) && m.dom().contains("LastModified"@)
            && m.dom().contains("Depends"@) {
            match (m["Name"@], m["LastModified"@], m["Depends"@]) {
                (JsonVal::Str(name), JsonVal::Num(t_opt), JsonVal::Arr(ds)) => match (
                    t_opt,
                    str_items_of(ds),
                ) {
                    (Some(t), Some(deps)) => Some((name, t, deps)),
                    _ => None,
                },
                _ => None,
            }
        } else {
            None
        },
        _ => None,
    }
}

pub open spec fn result_entries_of(vs: Seq<JsonVal>) -> Option<
    Seq<(Seq<char>, i64, Seq<Seq<char>>)>,
>
    decreases vs.len(),
{
    if vs.len() == 0 {
        Some(Seq::empty())
    } else {
        match (result_entries_of(vs.drop_last()), result_entry_of(vs.last())) {
            (Some(es), Some(e)) => Some(es.push(e)),
            _ => None,
        }
    }
}

/// What the registry's batch-info response denotes: the entries of its
/// `results` array, when the document has that shape.
pub open spec fn registry_results_of(doc: JsonVal) -> Option<
    Seq<(Seq<char>, i64, Seq<Seq<char>>)>,
> {
    match doc {
        JsonVal::Obj(m) => if m.dom().contains("results"@) {
            match m["results"@] {
                JsonVal::Arr(vs) => result_entries_of(vs),
                _ => None,
            }
        } else {
            None
        },
        _ => None,
    }
}

/// What a response text denotes: the registry entries of the document it
/// parses to.
pub open spec fn registry_reply_of(s: Seq<char>) -> Option<
    Seq<(Seq<char>, i64, Seq<Seq<char>>)>,
> {
    match json_doc_of(s) {
        Some(doc) => registry_results_of(doc),
        None => None,
    }
}

/// The (name, time, raw dependencies) views of parsed packages, in order.
pub open spec fn package_data_views(s: Seq<PackageData>) -> Seq<
    (Seq<char>, i64, Seq<Seq<char>>),
>
    decreases s.len(),
{
    if s.len() == 0 {
        Seq::empty()
    } else {
        package_data_views(s.drop_last()).push(
            (s.last().name@, s.last().last_modified, s.last().depends.deep_view()),
        )
    }
}

/// A prefix that denotes nothing decides the whole array.
proof fn lemma_entries_none_prefix(vs: Seq<JsonVal>, j: int)
    requires
        0 <= j <= vs.len(),
        result_entries_of(vs.take(j)) is None,
    ensures
        result_entries_of(vs) is None,
    decreases vs.len() - j,
{
    if j == vs.len() {
        assert(vs.take(j) =~= vs);
    } else {
        assert(vs.take(j + 1).drop_last() =~= vs.take(j));
        lemma_entries_none_prefix(vs, j + 1);
    }
}

proof fn lemma_str_items_none_prefix(ds: Seq<JsonVal>, j: int)
    requires
        0 <= j <= ds.len(),
        str_items_of(ds.take(j)) is None,
    ensures
        str_items_of(ds) is None,
    decreases ds.len() - j,
{
    if j == ds.len() {
        assert(ds.take(j) =~= ds);
    } else {
        assert(ds.take(j + 1).drop_last() =~= ds.take(j));
        lemma_str_items_none_prefix(ds, j + 1);
    }
}

/// Reads the registry's batch-info response: the `results` array, each entry
/// carrying a canonical name, an upstream modification time, and a raw
/// dependency list. Succeeds exactly when the response denotes such a
/// document, and returns exactly what it denotes.
#[verifier::rlimit(100)]
#[verifier::spinoff_prover]
pub fn get_package_info(response: &str) -> (r: Result<Vec<PackageData>, Error>)
    ensures
        r matches Ok(infos) ==> registry_reply_of(response@) == Some(
            package_data_views(infos@),
        ),
        r is Err <==> registry_reply_of(response@) is None,
        r matches Err(e) ==> e is Deserialize,
{
    let root = match crate::json_ext::json_from_str(response) {
        Ok(v) => v,
        Err(msg) => {
            return Err(Error::Deserialize(msg));
        },
    };
    let ghost doc = json_model(root);
    let results_field = match crate::json_ext::json_get(&root, "results") {
        Some(v) => v,
        None => {
            return Err(Error::Deserialize(String::from_str("missing results")));
        },
    };
    let results = match crate::json_ext::json_as_array(results_field) {
        Some(v) => v,
        None => {
            return Err(Error::Deserialize(String::from_str("results is not an array")));
        },
    };
    let ghost items = json_model(*results_field)->Arr_0;
    let mut out: Vec<PackageData> = Vec::new();
    let n = results.len();
    proof {
        assert(registry_reply_of(response@) == result_entries_of(items));
        assert(items.take(0) =~= Seq::<JsonVal>::empty());
        assert(package_data_views(out@) =~= Seq::<(Seq<char>, i64, Seq<Seq<char>>)>::empty());
    }
    let mut i: usize = 0;
    while i < n
        invariant
            i <= n,
            n == results@.len(),
            n == items.len(),
            registry_reply_of(response@) == result_entries_of(items),
            forall|k: int| 0 <= k < items.len() ==> json_model(#[trigger] results@[k])
                == items[k],
            result_entries_of(items.take(i as int)) == Some(package_data_views(out@)),
        decreases n - i,
    {
        let ghost mi = items[i as int];
        proof {
            assert(items.take(i + 1).drop_last() =~= items.take(i as int));
            assert(items.take(i + 1).last() == mi);
        }
        let item = &results[i];
        let name_field = match crate::json_ext::json_get(item, "Name") {
            Some(v) => v,
            None => {
                proof {
                    lemma_entries_none_prefix(items, i + 1);
                }
                return Err(Error::Deserialize(String::from_str("missing Name")));
            },
        };
        let name = match crate::json_ext::json_as_str(name_field) {
            Some(s) => s.to_owned(),
            None => {
                proof {
                    lemma_entries_none_prefix(items, i + 1);
                }
                return Err(Error::Deserialize(String::from_str("Name is not a string")));
            },
        };
        let lm_field = match crate::json_ext::json_get(item, "LastModified") {
            Some(v) => v,
            None => {
                proof {
                    lemma_entries_none_prefix(items, i + 1);
                }
                return Err(Error::Deserialize(String::from_str("missing LastModified")));
            },
        };
        let last_modified = match crate::json_ext::json_as_i64(lm_field) {
            Some(t) => t,
            None => {
                proof {
                    lemma_entries_none_prefix(items, i + 1);
                }
                return Err(Error::Deserialize(
                    String::from_str("LastModified is not an integer"),
                ));
            },
        };
        let deps_field = match crate::json_ext::json_get(item, "Depends") {
            Some(v) => v,
            None => {
                proof {
                    lemma_entries_none_prefix(items, i + 1);
                }
                return Err(Error::Deserialize(String::from_str("missing Depends")));
            },
        };
        let deps_arr = match crate::json_ext::json_as_array(deps_field) {
            Some(a) => a,
            None => {
                proof {
                    lemma_entries_none_prefix(items, i + 1);
                }
                return Err(Error::Deserialize(String::from_str("Depends is not an array")));
            },
        };
        let ghost ds = json_model(*deps_field)->Arr_0;
        let mut depends: Vec<String> = Vec::new();
        let m = deps_arr.len();
        proof {
            assert(ds.take(0) =~= Seq::<JsonVal>::empty());
            assert(depends.deep_view() =~= Seq::<Seq<char>>::empty());
            if str_items_of(ds) is None {
                assert(result_entry_of(mi) is None);
                lemma_entries_none_prefix(items, i + 1);
            }
        }
        let mut j: usize = 0;
        while j < m
            invariant
                j <= m,
                m == deps_arr@.len(),
                m == ds.len(),
                forall|k: int| 0 <= k < ds.len() ==> json_model(#[trigger] deps_arr@[k])
                    == ds[k],
                str_items_of(ds.take(j as int)) == Some(depends.deep_view()),
                str_items_of(ds) is None ==> registry_reply_of(response@) is None,
            decreases m - j,
        {
            proof {
                assert(ds.take(j + 1).drop_last() =~= ds.take(j as int));
                assert(ds.take(j + 1).last() == ds[j as int]);
            }
            match crate::json_ext::json_as_str(&deps_arr[j]) {
                Some(s) => {
                    let ghost old_deps = depends.deep_view();
                    depends.push(s.to_owned());
                    proof {
                        assert(depends.deep_view() =~~= old_deps.push(s@));
                    }
                },
                None => {
                    proof {
                        lemma_str_items_none_prefix(ds, j + 1);
                    }
                    return Err(Error::Deserialize(
                        String::from_str("dependency is not a string"),
                    ));
                },
            }
            j += 1;
        }
        proof {
            assert(ds.take(m as int) =~= ds);
        }
        let ghost old_views = package_data_views(out@);
        let ghost old_out = out@;
        out.push(PackageData { name, last_modified, depends });
        proof {
            assert(out@.drop_last() =~= old_out);
            assert(result_entry_of(mi) == Some(
                (out@.last().name@, out@.last().last_modified, out@.last().depends.deep_view()),
            ));
            assert(package_data_views(out@) == old_views.push(
                (out@.last().name@, out@.last().last_modified, out@.last().depends.deep_view()),
            ));
            assert(result_entries_of(items.take(i + 1)) == Some(package_data_views(out@)));
        }
        i += 1;
    }
    proof {
        assert(items.take(n as int) =~= items);
    }
    Ok(out)
}

/// The upstream modification time of each parsed package, in response order.
pub fn get_last_modified(infos: &Vec<PackageData>) -> (r: Vec<(String, i64)>)
    ensures
        r@.len() == infos@.len(),
        forall|k: int| 0 <= k < r@.len() ==> (#[trigger] r@[k]).0@ == infos@[k].name@
            && r@[k].1 == infos@[k].last_modified,
{
    let mut r: Vec<(String, i64)> = Vec::new();
    let n = infos.len();
    let mut i: usize = 0;
    while i < n
        invariant
            i <= n,
            n == infos@.len(),
            r@.len() == i,
            forall|k: int| 0 <= k < i ==> (#[trigger] r@[k]).0@ == infos@[k].name@
                && r@[k].1 == infos@[k].last_modified,
        decreases n - i,
    {
        r.push((infos[i].name.clone(), infos[i].last_modified));
        i += 1;
    }
    r
}

/// The canonical names the registry reported: a requested name outside this
/// list does not exist upstream.
pub fn do_packages_exist(infos: &Vec<PackageData>) -> (r: Vec<String>)
    ensures
        r@.len() == infos@.len(),
        forall|k: int| 0 <= k < r@.len() ==> (#[trigger] r@[k])@ == infos@[k].name@,
{
    let mut r: Vec<String> = Vec::new();
    let n = infos.len();
    let mut i: usize = 0;
    while i < n
        invariant
            i <= n,
            n == infos@.len(),
            r@.len() == i,
            forall|k: int| 0 <= k < i ==> (#[trigger] r@[k])@ == infos@[k].name@,
        decreases n - i,
    {
        r.push(infos[i].name.clone());
        i += 1;
    }
    r
}

/// Each parsed package with its dependency list filtered against the
/// base-distribution cache: exactly the entries that pass the filter, in
/// order.
pub fn get_dependencies(infos: &Vec<PackageData>, cache: &Vec<String>) -> (r: Vec<
    (String, Vec<String>),
>)
    ensures
        r@.len() == infos@.len(),
        forall|k: int| 0 <= k < r@.len() ==> (#[trigger] r@[k]).0@ == infos@[k].name@
            && r@[k].1.deep_view() == filtered_deps(
            infos@[k].depends.deep_view(),
            cache.deep_view(),
        ),
{
    let mut r: Vec<(String, Vec<String>)> = Vec::new();
    let n = infos.len();
    let mut i: usize = 0;
    while i < n
        invariant
            i <= n,
            n == infos@.len(),
            r@.len() == i,
            forall|k: int| 0 <= k < i ==> (#[trigger] r@[k]).0@ == infos@[k].name@
                && r@[k].1.deep_view() == filtered_deps(
                infos@[k].depends.deep_view(),
                cache.deep_view(),
            ),
        decreases n - i,
    {
        let deps = filter_dependencies(&infos[i].depends, cache);
        r.push((infos[i].name.clone(), deps));
        i += 1;
    }
    r
}

/// Assembles what a recipe probe learned, filtering the dependencies.
pub fn check_pkgbuild(
    recipe_stdout: &Vec<char>,
    timestamp_stdout: &Vec<char>,
    cache: &Vec<String>,
) -> (r: Result<PackageData, Error>)
    ensures
        r matches Ok(p) ==> p.name@ == first_line(recipe_stdout@)
            && parse_i64_str(trimmed(timestamp_stdout@)) == Some(p.last_modified)
            && (match after_first_line(recipe_stdout@) {
                Some(rest) => exists|tokens: Seq<Seq<char>>|
                    joined_with(tokens, ' ') == first_line(rest)
                        && (forall|k: int| 0 <= k < tokens.len()
                            ==> !(#[trigger] tokens[k]).contains(' '))
                        && p.depends.deep_view() == filtered_deps(tokens, cache.deep_view()),
                None => p.depends.deep_view() =~= Seq::<Seq<char>>::empty(),
            }),
        r is Err <==> recipe_stdout@.len() == 0 || parse_i64_str(
            trimmed(timestamp_stdout@),
        ) is None,
        r matches Err(e) ==> if recipe_stdout@.len() == 0 {
            e is PkgbuildNameMissing
        } else {
            e is FailedToParseTimestamp
        },
{
    let (name, depends) = match parse_pkgbuild_output(recipe_stdout, cache) {
        Ok(p) => p,
        Err(e) => {
            return Err(e);
        },
    };
    let last_modified = match parse_timestamp(timestamp_stdout) {
        Ok(t) => t,
        Err(e) => {
            return Err(e);
        },
    };
    Ok(PackageData { name, last_modified, depends })
}

} // verus!
