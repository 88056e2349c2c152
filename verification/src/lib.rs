//! Build coordinator for a community package archive.
//!
//! The library holds the coordinator's decision logic: the tracked-package
//! state and its garbage collection, the scheduler's rebuild and retry rules,
//! the orchestrator's dispatch and supervision rules, the repository manager's
//! command planning, the persistence format of the state document, and the
//! request/response types of the HTTP control surface.

use vstd::prelude::*;
use vstd::string::StringExecFns;

pub mod cli;
pub mod config;
pub mod endpoints;
pub mod json_ext;
pub mod messages;
pub mod numbers;
pub mod orchestrator;
pub mod persist;
pub mod query;
pub mod repository;
pub mod scheduler;
pub mod state;
pub mod stop_token;
pub mod strutil;
pub mod web;

verus! {

/// Request body of `POST /packages/add`: package names to start tracking.
pub struct AddPackages {
    pub packages: Vec<String>,
}

/// Response of `POST /packages/add`.
pub struct AddPackagesResponse {
    pub added: Vec<String>,
    pub already_tracked: Vec<String>,
    pub not_found: Vec<String>,
}

/// Request body of `POST /artifacts`: the files produced by one build.
pub struct Artifacts {
    pub package_name: String,
    pub build_time: i64,
    pub files: Vec<(String, Vec<u8>)>,
}

/// Response of `GET /status`: the tracked package names.
pub struct Status {
    pub packages: Vec<String>,
}

/// Request body of `POST /packages/remove`.
pub struct RemovePackages {
    pub packages: Vec<String>,
}

/// Response of `POST /packages/remove`.
pub struct RemovePackagesResponse {
    pub removed: Vec<String>,
    pub not_tracked: Vec<String>,
}

/// Request body of `POST /packages/rebuild`.
pub struct ForceRebuild {
    pub packages: Vec<String>,
}

/// Response of `POST /packages/rebuild`.
pub struct ForceRebuildResponse {
    pub not_found: Vec<String>,
}

/// Request body of `POST /packages/add-url`.
pub struct AddPackageUrl {
    pub url: String,
}

/// Response of `POST /packages/add-url`. `Added` reports the package name
/// that the probed recipe declared.
pub enum AddPackageUrlResponse {
    Added(String),
    AlreadyAdded(String),
    Error(String),
}


/// The list joined for display: nothing for an empty list, the lone element,
/// or the elements separated by commas with `and` before the last.
pub open spec fn combined_display(l: Seq<Seq<char>>) -> Seq<char> {
    if l.len() == 0 {
        Seq::empty()
    } else if l.len() == 1 {
        l[0]
    } else {
        comma_joined(l.drop_last()) + " and "@ + l.last()
    }
}

/// The names joined with `, `.
pub open spec fn comma_joined(l: Seq<Seq<char>>) -> Seq<char>
    decreases l.len(),
{
    if l.len() == 0 {
        Seq::empty()
    } else if l.len() == 1 {
        l[0]
    } else {
        comma_joined(l.drop_last()) + ", "@ + l.last()
    }
}

/// Joins names for a human-readable enumeration: `a`, `a and b`,
/// `a, b and c`.
pub fn combine_for_display(list: &Vec<String>) -> (r: String)
    ensures
        r@ == combined_display(list.deep_view()),
{
    let n = list.len();
    if n == 0 {
        return String::new();
    }
    if n == 1 {
        proof {
            assert(list.deep_view()[0] == list@[0]@);
        }
        return list[0].clone();
    }
    let mut r = String::new();
    let mut i: usize = 0;
    let last = n - 1;
    while i < last
        invariant
            i <= last,
            last == list@.len() - 1,
            n == list@.len(),
            n >= 2,
            r@ =~= comma_joined(list.deep_view().take(i as int)) + (if i == 0 {
                Seq::<char>::empty()
            } else {
                Seq::<char>::empty()
            }),
            i > 0 ==> r@ =~= comma_joined(list.deep_view().take(i as int)),
            i == 0 ==> r@ =~= Seq::<char>::empty(),
        decreases last - i,
    {
        proof {
            assert(list.deep_view().take(i + 1).drop_last() =~= list.deep_view().take(i as int));
            assert(list.deep_view().take(i + 1).last() == list@[i as int]@);
        }
        if i > 0 {
            r.append(", ");
        }
        r.append(list[i].as_str());
        proof {
            if i == 0 {
                assert(comma_joined(list.deep_view().take(1)) == list.deep_view().take(1)[0]);
                assert(list.deep_view().take(1)[0] == list@[0]@);
                assert(r@ =~= comma_joined(list.deep_view().take(1)));
            } else {
                assert(r@ =~= comma_joined(list.deep_view().take(i + 1)));
            }
        }
        i += 1;
    }
    r.append(" and ");
    r.append(list[last].as_str());
    proof {
        assert(list.deep_view().take(last as int) =~= list.deep_view().drop_last());
        assert(list.deep_view().last() == list@[last as int]@);
        assert(r@ =~= combined_display(list.deep_view()));
    }
    r
}

} // verus!
