//! The repository manager's decisions: which files belong to the index, the
//! argument lists of the index tools, and what a remove transaction deletes.

use vstd::prelude::*;
use vstd::string::StringExecFns;
use crate::state::{clone_string_vec, State};
use crate::strutil::str_to_chars;

verus! {

/// The directory that holds the published repository.
pub const REPO_DIR: &'static str = "/output/";

pub open spec fn ends_with(s: Seq<char>, suffix: Seq<char>) -> bool {
    s.len() >= suffix.len() && s.skip(s.len() - suffix.len()) == suffix
}

/// Whether a file belongs to the repository index (and is deleted before the
/// index is recreated on startup).
pub open spec fn is_index_file(name: Seq<char>) -> bool {
    ||| ends_with(name, ".db"@)
    ||| ends_with(name, ".db.tar.zst"@)
    ||| ends_with(name, ".files"@)
    ||| ends_with(name, ".files.tar.zst"@)
}

fn chars_end_with(v: &Vec<char>, suffix: &Vec<char>) -> (r: bool)
    ensures
        r == ends_with(v@, suffix@),
{
    let n = v.len();
    let m = suffix.len();
    if n < m {
        return false;
    }
    let mut i: usize = 0;
    while i < m
        invariant
            i <= m,
            m <= n,
            n == v@.len(),
            m == suffix@.len(),
            forall|j: int| 0 <= j < i ==> v@[n - m + j] == suffix@[j],
        decreases m - i,
    {
        if v[n - m + i] != suffix[i] {
            proof {
                assert(v@.skip(n - m)[i as int] != suffix@[i as int]);
            }
            return false;
        }
        i += 1;
    }
    proof {
        assert(v@.skip(n - m) =~= suffix@);
    }
    true
}

/// The startup recreate pass deletes exactly the index files.
pub fn is_repo_index_file(name: &String) -> (r: bool)
    ensures
        r == is_index_file(name@),
{
    let chars = str_to_chars(name.as_str());
    let a = str_to_chars(".db");
    let b = str_to_chars(".db.tar.zst");
    let c = str_to_chars(".files");
    let d = str_to_chars(".files.tar.zst");
    chars_end_with(&chars, &a) || chars_end_with(&chars, &b) || chars_end_with(&chars, &c)
        || chars_end_with(&chars, &d)
}

/// The index database's file name: `<repo>.db.tar.zst`.
pub fn db_file_name(repo_name: &String) -> (r: String)
    ensures
        r@ == repo_name@ + ".db.tar.zst"@,
{
    repo_name.clone().concat(".db.tar.zst")
}

/// The argument list of the index-add invocation:
/// `--new --remove --prevent-downgrade <repo>.db.tar.zst <files…>`.
pub fn repo_add_args(repo_name: &String, files: &Vec<String>) -> (r: Vec<String>)
    ensures
        r.deep_view() == seq![
            "--new"@,
            "--remove"@,
            "--prevent-downgrade"@,
            repo_name@ + ".db.tar.zst"@,
        ] + files.deep_view(),
{
    let mut r: Vec<String> = Vec::new();
    r.push(String::from_str("--new"));
    r.push(String::from_str("--remove"));
    r.push(String::from_str("--prevent-downgrade"));
    r.push(db_file_name(repo_name));
    let mut fs = clone_string_vec(files);
    r.append(&mut fs);
    proof {
        assert(r.deep_view() =~= seq![
            "--new"@,
            "--remove"@,
            "--prevent-downgrade"@,
            repo_name@ + ".db.tar.zst"@,
        ] + files.deep_view());
    }
    r
}

/// The argument list of the index-remove invocation:
/// `<repo>.db.tar.zst <packages…>`.
pub fn repo_remove_args(repo_name: &String, packages: &Vec<String>) -> (r: Vec<String>)
    ensures
        r.deep_view() == seq![repo_name@ + ".db.tar.zst"@] + packages.deep_view(),
{
    let mut r: Vec<String> = Vec::new();
    r.push(db_file_name(repo_name));
    let mut ps = clone_string_vec(packages);
    r.append(&mut ps);
    proof {
        assert(r.deep_view() =~= seq![repo_name@ + ".db.tar.zst"@] + packages.deep_view());
    }
    r
}

/// The files recorded for the named packages, in order; a package with no
/// recorded build contributes nothing.
pub open spec fn removal_files(st: State, pkgs: Seq<String>) -> Seq<Seq<char>>
    decreases pkgs.len(),
{
    if pkgs.len() == 0 {
        Seq::empty()
    } else {
        removal_files(st, pkgs.drop_last()) + (if st.contains_name(pkgs.last()@) && st.at(
            pkgs.last()@,
        ).build is Some {
            st.at(pkgs.last()@).build->0.files
        } else {
            Seq::empty()
        })
    }
}

/// The named packages that have recorded files, in order.
pub open spec fn removal_pkgs(st: State, pkgs: Seq<String>) -> Seq<Seq<char>>
    decreases pkgs.len(),
{
    if pkgs.len() == 0 {
        Seq::empty()
    } else {
        let rest = removal_pkgs(st, pkgs.drop_last());
        if st.contains_name(pkgs.last()@) && st.at(pkgs.last()@).build is Some && st.at(
            pkgs.last()@,
        ).build->0.files.len() > 0 {
            rest.push(pkgs.last()@)
        } else {
            rest
        }
    }
}

/// What a remove transaction passes to the index tool: every file recorded
/// for the named packages (those are the files deleted from disk), and the
/// packages that actually had files.
pub fn files_and_packages_to_remove(state: &State, packages: &Vec<String>) -> (r: (
    Vec<String>,
    Vec<String>,
))
    requires
        state.wf(),
    ensures
        r.0.deep_view() == removal_files(*state, packages@),
        r.1.deep_view() == removal_pkgs(*state, packages@),
{
    let mut files: Vec<String> = Vec::new();
    let mut pkgs: Vec<String> = Vec::new();
    let n = packages.len();
    let mut i: usize = 0;
    while i < n
        invariant
            i <= n,
            n == packages@.len(),
            state.wf(),
            files.deep_view() =~= removal_files(*state, packages@.take(i as int)),
            pkgs.deep_view() =~= removal_pkgs(*state, packages@.take(i as int)),
        decreases n - i,
    {
        proof {
            assert(packages@.take(i + 1).drop_last() =~= packages@.take(i as int));
            assert(packages@.take(i + 1).last() == packages@[i as int]);
        }
        let mut package_files = state.get_files(&packages[i]);
        if package_files.len() > 0 {
            proof {
                assert(state.contains_name(packages@[i as int]@) && state.at(
                    packages@[i as int]@,
                ).build is Some);
            }
            files.append(&mut package_files);
            pkgs.push(packages[i].clone());
        }
        proof {
            assert(files.deep_view() =~= removal_files(*state, packages@.take(i + 1)));
            assert(pkgs.deep_view() =~= removal_pkgs(*state, packages@.take(i + 1)));
        }
        i += 1;
    }
    proof {
        assert(packages@.take(n as int) =~= packages@);
    }
    (files, pkgs)
}

/// The repository manager's artifact transaction, after a successful index
/// run: record the build in the state. The caller persists the state and
/// only then reports the success, so the saved document reflects the build
/// before anyone learns of it.
pub fn apply_artifacts_uploaded(
    state: &mut State,
    package: &String,
    build_time: i64,
    files: Vec<String>,
)
    requires
        old(state).wf(),
    ensures
        final(state).wf(),
        forall|n: Seq<char>|
            final(state).contains_name(n) == old(state).contains_name(n),
        old(state).contains_name(package@) ==> final(state).at(package@)
            == (crate::state::PackageInfoView {
            build: Some(
                crate::state::BuildView {
                    time: build_time as int,
                    files: files.deep_view(),
                },
            ),
            ..old(state).at(package@)
        }),
        forall|n: Seq<char>| n != package@ && old(state).contains_name(n)
            ==> final(state).at(n) == old(state).at(n),
{
    state.build_package(package, build_time, files);
}

} // verus!
