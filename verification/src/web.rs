//! Decision logic of the HTTP ingress: filename sanitization for uploaded
//! artifacts, and the planning of add / remove / rebuild requests against the
//! tracked set.

use vstd::prelude::*;
use vstd::string::StrSliceExecFns;
use vstd::string::StringExecFns;

verus! {

/// The final path component of `s`: everything after the last `/`.
pub open spec fn basename(s: Seq<char>) -> Seq<char>
    decreases s.len(),
{
    if s.len() == 0 {
        s
    } else if s.last() == '/' {
        Seq::empty()
    } else {
        basename(s.drop_last()).push(s.last())
    }
}

/// The last real component of a path: trailing separators and `.` segments
/// are skipped, and a path whose last component is empty or `..` has none.
pub open spec fn path_file_name(s: Seq<char>) -> Option<Seq<char>>
    decreases s.len(),
{
    if s.len() == 0 {
        None
    } else if s.last() == '/' {
        path_file_name(s.drop_last())
    } else {
        let b = basename(s);
        if b == "."@ {
            path_file_name(s.drop_last())
        } else if b == ".."@ {
            None
        } else {
            Some(b)
        }
    }
}

/// What an uploaded file name becomes on disk: its last real path component,
/// with `default` standing in when there is none, so every upload lands
/// inside the repository directory.
pub open spec fn sanitized_name(s: Seq<char>) -> Seq<char> {
    match path_file_name(s) {
        Some(b) => b,
        None => "default"@,
    }
}

proof fn lemma_basename_suffix(s: Seq<char>, idx: int)
    requires
        0 <= idx <= s.len(),
        forall|j: int| idx <= j < s.len() ==> s[j] != '/',
        idx == 0 || s[idx - 1] == '/',
    ensures
        basename(s) == s.subrange(idx, s.len() as int),
    decreases s.len(),
{
    if s.len() == 0 {
        assert(basename(s) =~= s.subrange(idx, s.len() as int));
    } else if s.last() == '/' {
        assert(idx == s.len());
        assert(basename(s) =~= s.subrange(idx, s.len() as int));
    } else {
        lemma_basename_suffix(s.drop_last(), idx);
        assert(s.drop_last().subrange(idx, s.len() - 1) =~= s.subrange(idx, s.len() - 1));
        assert(s.subrange(idx, s.len() - 1).push(s.last()) =~= s.subrange(idx, s.len() as int));
    }
}

/// Sanitizes an uploaded file name to the single path component that is
/// written under the repository directory.
pub fn sanitize_filename(file_name: &str) -> (r: String)
    ensures
        r@ == sanitized_name(file_name@),
{
    let ghost s = file_name@;
    let chars = crate::strutil::str_to_chars(file_name);
    let len = chars.len();
    let mut end: usize = len;
    proof {
        assert(s.take(len as int) =~= s);
    }
    loop
        invariant
            end <= len,
            len == s.len(),
            chars@ == s,
            s == file_name@,
            path_file_name(s.take(end as int)) == path_file_name(s),
        decreases end,
    {
        if end == 0 {
            proof {
                assert(s.take(0).len() == 0);
            }
            return String::from_str("default");
        }
        if chars[end - 1] == '/' {
            proof {
                let t = s.take(end as int);
                assert(t.last() == s[end - 1]);
                assert(t.drop_last() =~= s.take(end - 1));
            }
            end = end - 1;
        } else {
            // Scan back to the start of the final component.
            let mut cstart: usize = end;
            while cstart > 0 && chars[cstart - 1] != '/'
                invariant
                    cstart <= end <= len,
                    len == s.len(),
                    chars@ == s,
                    forall|j: int| cstart <= j < end ==> s[j] != '/',
                decreases cstart,
            {
                cstart = cstart - 1;
            }
            let ghost t = s.take(end as int);
            proof {
                assert(t.last() == s[end - 1]);
                assert(forall|j: int| cstart <= j < end ==> t[j] != '/');
                if cstart > 0 {
                    assert(t[cstart - 1] == s[cstart - 1]);
                }
                lemma_basename_suffix(t, cstart as int);
                assert(basename(t) == t.subrange(cstart as int, end as int));
                assert(t.subrange(cstart as int, end as int) =~= s.subrange(
                    cstart as int,
                    end as int,
                ));
                reveal_strlit(".");
                reveal_strlit("..");
            }
            let ghost b = basename(t);
            if end - cstart == 1 && chars[cstart] == '.' {
                proof {
                    assert(b =~= "."@);
                    assert(t.drop_last() =~= s.take(end - 1));
                }
                end = end - 1;
            } else if end - cstart == 2 && chars[cstart] == '.' && chars[cstart + 1] == '.' {
                proof {
                    assert(b =~= ".."@);
                    assert(path_file_name(t) is None);
                }
                return String::from_str("default");
            } else {
                proof {
                    assert(b.len() == end - cstart);
                    assert(b[0] == s[cstart as int]);
                    if b == "."@ {
                        assert(b.len() == 1 && b[0] == '.');
                    }
                    if b == ".."@ {
                        assert(b.len() == 2 && b[0] == '.' && b[1] == '.');
                        assert(s[cstart + 1] == b[1]);
                    }
                    assert(path_file_name(t) == Some(b));
                }
                return file_name.substring_char(cstart, end).to_owned();
            }
        }
    }
}



/// The names of `a` that do not occur in `b`, in order.
pub open spec fn names_diff(a: Seq<Seq<char>>, b: Seq<Seq<char>>) -> Seq<Seq<char>>
    decreases a.len(),
{
    if a.len() == 0 {
        Seq::empty()
    } else {
        let rest = names_diff(a.drop_last(), b);
        if !b.contains(a.last()) {
            rest.push(a.last())
        } else {
            rest
        }
    }
}

/// The names of `a` that occur in `b`, in order.
pub open spec fn names_inter(a: Seq<Seq<char>>, b: Seq<Seq<char>>) -> Seq<Seq<char>>
    decreases a.len(),
{
    if a.len() == 0 {
        Seq::empty()
    } else {
        let rest = names_inter(a.drop_last(), b);
        if b.contains(a.last()) {
            rest.push(a.last())
        } else {
            rest
        }
    }
}

fn filter_not_in(a: &Vec<String>, b: &Vec<String>) -> (r: Vec<String>)
    ensures
        r.deep_view() == names_diff(a.deep_view(), b.deep_view()),
{
    let mut r: Vec<String> = Vec::new();
    let n = a.len();
    let mut i: usize = 0;
    while i < n
        invariant
            i <= n,
            n == a@.len(),
            r.deep_view() =~= names_diff(a.deep_view().take(i as int), b.deep_view()),
        decreases n - i,
    {
        proof {
            assert(a.deep_view().take(i + 1).drop_last() =~= a.deep_view().take(i as int));
            assert(a.deep_view().take(i + 1).last() == a.deep_view()[i as int]);
            assert(a.deep_view()[i as int] == a@[i as int]@);
        }
        if !crate::state::contains_string(b, &a[i]) {
            r.push(a[i].clone());
        }
        proof {
            assert(r.deep_view() =~= names_diff(a.deep_view().take(i + 1), b.deep_view()));
        }
        i += 1;
    }
    proof {
        assert(a.deep_view().take(n as int) =~= a.deep_view());
    }
    r
}

fn filter_in(a: &Vec<String>, b: &Vec<String>) -> (r: Vec<String>)
    ensures
        r.deep_view() == names_inter(a.deep_view(), b.deep_view()),
{
    let mut r: Vec<String> = Vec::new();
    let n = a.len();
    let mut i: usize = 0;
    while i < n
        invariant
            i <= n,
            n == a@.len(),
            r.deep_view() =~= names_inter(a.deep_view().take(i as int), b.deep_view()),
        decreases n - i,
    {
        proof {
            assert(a.deep_view().take(i + 1).drop_last() =~= a.deep_view().take(i as int));
            assert(a.deep_view().take(i + 1).last() == a.deep_view()[i as int]);
            assert(a.deep_view()[i as int] == a@[i as int]@);
        }
        if crate::state::contains_string(b, &a[i]) {
            r.push(a[i].clone());
        }
        proof {
            assert(r.deep_view() =~= names_inter(a.deep_view().take(i + 1), b.deep_view()));
        }
        i += 1;
    }
    proof {
        assert(a.deep_view().take(n as int) =~= a.deep_view());
    }
    r
}

/// Plans an add request: what is actually added (requested but not yet
/// tracked), what the registry does not know (`not_found`), and what was
/// tracked all along. Only the added names go on the bus.
pub fn plan_add_packages(
    requested: &Vec<String>,
    existing: &Vec<String>,
    tracked_names: &Vec<String>,
) -> (r: crate::AddPackagesResponse)
    ensures
        r.added.deep_view() == names_diff(requested.deep_view(), tracked_names.deep_view()),
        r.not_found.deep_view() == names_diff(requested.deep_view(), existing.deep_view()),
        r.already_tracked.deep_view() == names_inter(
            requested.deep_view(),
            tracked_names.deep_view(),
        ),
{
    crate::AddPackagesResponse {
        added: filter_not_in(requested, tracked_names),
        not_found: filter_not_in(requested, existing),
        already_tracked: filter_in(requested, tracked_names),
    }
}

/// Plans a remove request: what is removed (requested and tracked) and what
/// was never tracked. Only the removed names go on the bus.
pub fn plan_remove_packages(requested: &Vec<String>, tracked_names: &Vec<String>) -> (r:
    crate::RemovePackagesResponse)
    ensures
        r.removed.deep_view() == names_inter(requested.deep_view(), tracked_names.deep_view()),
        r.not_tracked.deep_view() == names_diff(
            requested.deep_view(),
            tracked_names.deep_view(),
        ),
{
    crate::RemovePackagesResponse {
        removed: filter_in(requested, tracked_names),
        not_tracked: filter_not_in(requested, tracked_names),
    }
}

/// Plans a rebuild request: builds start only when every requested name is
/// tracked; otherwise nothing is emitted and the unknown names are reported.
pub fn plan_force_rebuild(requested: &Vec<String>, tracked_names: &Vec<String>) -> (r: (
    crate::ForceRebuildResponse,
    Vec<String>,
))
    ensures
        r.0.not_found.deep_view() == names_diff(
            requested.deep_view(),
            tracked_names.deep_view(),
        ),
        r.0.not_found@.len() == 0 ==> r.1@ == requested@,
        r.0.not_found@.len() > 0 ==> r.1@.len() == 0,
{
    let not_found = filter_not_in(requested, tracked_names);
    if not_found.len() == 0 {
        let to_build = crate::state::clone_string_vec(requested);
        (crate::ForceRebuildResponse { not_found }, to_build)
    } else {
        (crate::ForceRebuildResponse { not_found }, Vec::new())
    }
}

/// The status snapshot: the tracked names.
pub fn status_response(state: &crate::state::State) -> (r: crate::Status)
    ensures
        r.packages.deep_view() == crate::state::entry_names(state.entries@),
{
    crate::Status { packages: state.tracked_packages() }
}

/// Sanitizes every uploaded file name, in upload order: the names under
/// which the ingress writes the artifacts and announces them on the bus.
pub fn sanitize_all(files: &Vec<(String, Vec<u8>)>) -> (r: Vec<String>)
    ensures
        r@.len() == files@.len(),
        forall|k: int| 0 <= k < r@.len() ==> (#[trigger] r@[k])@ == sanitized_name(
            files@[k].0@,
        ),
{
    let mut r: Vec<String> = Vec::new();
    let n = files.len();
    let mut i: usize = 0;
    while i < n
        invariant
            i <= n,
            n == files@.len(),
            r@.len() == i,
            forall|k: int| 0 <= k < i ==> (#[trigger] r@[k])@ == sanitized_name(files@[k].0@),
        decreases n - i,
    {
        r.push(sanitize_filename(files[i].0.as_str()));
        i += 1;
    }
    r
}

} // verus!
