//! The persistent tracking state: a map from package name to package record,
//! kept as an ordered list of entries with unique names, plus the ephemeral
//! set of active build containers.

use vstd::prelude::*;
use vstd::string::StringExecFns;

verus! {

/// A tracked package name.
pub type Package = String;

/// The record of the last successful build of a package.
pub struct Build {
    pub time: i64,
    pub files: Vec<String>,
}

/// Everything the coordinator knows about one tracked package.
pub struct PackageInfo {
    /// `None` for a package resolved through the upstream registry; `Some`
    /// for a package added by clonable source URL.
    pub url: Option<String>,
    /// True iff the package was added transitively as a dependency.
    pub is_dependency: bool,
    /// Names this package requires at build time.
    pub dependencies: Vec<String>,
    /// The last successful build, if any.
    pub build: Option<Build>,
}

pub ghost struct BuildView {
    pub time: int,
    pub files: Seq<Seq<char>>,
}

impl View for Build {
    type V = BuildView;

    open spec fn view(&self) -> BuildView {
        BuildView { time: self.time as int, files: self.files.deep_view() }
    }
}

pub ghost struct PackageInfoView {
    pub url: Option<Seq<char>>,
    pub is_dependency: bool,
    pub dependencies: Seq<Seq<char>>,
    pub build: Option<BuildView>,
}

impl View for PackageInfo {
    type V = PackageInfoView;

    open spec fn view(&self) -> PackageInfoView {
        PackageInfoView {
            url: match self.url {
                Some(u) => Some(u@),
                None => None,
            },
            is_dependency: self.is_dependency,
            dependencies: self.dependencies.deep_view(),
            build: match self.build {
                Some(b) => Some(b@),
                None => None,
            },
        }
    }
}

/// The set of tracked packages: the single source of truth (its key set is
/// the authoritative tracking set).
pub struct State {
    pub entries: Vec<(String, PackageInfo)>,
}

impl State {
    /// Names are unique: the entry list represents a map.
    pub open spec fn wf(self) -> bool {
        forall|i: int, j: int|
            0 <= i < j < self.entries@.len() ==> self.entries@[i].0@ != self.entries@[j].0@
    }

    pub open spec fn len(self) -> nat {
        self.entries@.len()
    }

    /// The package named `n` is tracked.
    pub open spec fn contains_name(self, n: Seq<char>) -> bool {
        exists|i: int| 0 <= i < self.entries@.len() && self.entries@[i].0@ == n
    }

    pub open spec fn index_of(self, n: Seq<char>) -> int {
        choose|i: int| 0 <= i < self.entries@.len() && self.entries@[i].0@ == n
    }

    /// The record of the tracked package named `n`.
    pub open spec fn at(self, n: Seq<char>) -> PackageInfoView {
        self.entries@[self.index_of(n)].1@
    }

    /// Some tracked package lists `n` among its dependencies.
    pub open spec fn is_required(self, n: Seq<char>) -> bool {
        exists|i: int, j: int|
            0 <= i < self.entries@.len() && 0 <= j < self.entries@[i].1.dependencies@.len()
                && self.entries@[i].1.dependencies@[j]@ == n
    }

    /// `n` was added only as a dependency and no tracked package needs it.
    pub open spec fn is_unneeded(self, n: Seq<char>) -> bool {
        self.contains_name(n) && self.at(n).is_dependency && !self.is_required(n)
    }

    /// Every dependency of the tracked package `n` has a recorded build.
    pub open spec fn deps_met(self, n: Seq<char>) -> bool {
        self.contains_name(n) && forall|k: int|
            0 <= k < self.at(n).dependencies.len() ==> {
                let d = #[trigger] self.at(n).dependencies[k];
                self.contains_name(d) && self.at(d).build is Some
            }
    }

    /// Every dependency name referenced by any tracked package is itself
    /// tracked.
    pub open spec fn closed(self) -> bool {
        forall|n: Seq<char>, k: int|
            self.contains_name(n) && 0 <= k < self.at(n).dependencies.len()
                ==> self.contains_name(#[trigger] self.at(n).dependencies[k])
    }

    proof fn lemma_index_unique(self, i: int, n: Seq<char>)
        requires
            self.wf(),
            0 <= i < self.entries@.len(),
            self.entries@[i].0@ == n,
        ensures
            self.contains_name(n),
            self.index_of(n) == i,
    {
        assert(self.contains_name(n));
        let k = self.index_of(n);
        if k != i {
            if k < i {
                assert(self.entries@[k].0@ != self.entries@[i].0@);
            } else {
                assert(self.entries@[i].0@ != self.entries@[k].0@);
            }
        }
    }

    /// An empty state: nothing tracked yet.
    pub fn new() -> (r: State)
        ensures
            r.wf(),
            r.len() == 0,
            forall|n: Seq<char>| !r.contains_name(n),
    {
        State { entries: Vec::new() }
    }

    fn position_of(&self, package: &String) -> (r: Option<usize>)
        requires
            self.wf(),
        ensures
            match r {
                Some(i) => i < self.entries@.len() && self.entries@[i as int].0@ == package@
                    && self.contains_name(package@) && self.index_of(package@) == i,
                None => !self.contains_name(package@),
            },
    {
        let n = self.entries.len();
        let mut i: usize = 0;
        while i < n
            invariant
                i <= n,
                n == self.entries@.len(),
                self.wf(),
                forall|j: int| 0 <= j < i ==> self.entries@[j].0@ != package@,
            decreases n - i,
        {
            if self.entries[i].0 == *package {
                proof {
                    self.lemma_index_unique(i as int, package@);
                }
                return Some(i);
            }
            i += 1;
        }
        None
    }

    /// Whether `package` is tracked.
    pub fn is_package_tracked(&self, package: &String) -> (r: bool)
        requires
            self.wf(),
        ensures
            r == self.contains_name(package@),
    {
        self.position_of(package).is_some()
    }

    /// Inserts or replaces the record of `package`. The shared core of
    /// `track_package` and `track_package_url`.
    fn track_package_inner(
        &mut self,
        package: String,
        url: Option<String>,
        dependencies: Vec<String>,
        is_dependency: bool,
    )
        requires
            old(self).wf(),
        ensures
            final(self).wf(),
            final(self).contains_name(package@),
            final(self).at(package@) == (PackageInfoView {
                url: match url {
                    Some(u) => Some(u@),
                    None => None,
                },
                is_dependency: is_dependency,
                dependencies: dependencies.deep_view(),
                build: None,
            }),
            forall|n: Seq<char>| n != package@
                ==> (final(self).contains_name(n) == old(self).contains_name(n)),
            forall|n: Seq<char>| n != package@ && old(self).contains_name(n)
                ==> final(self).at(n) == old(self).at(n),
            final(self).len() == if old(self).contains_name(package@) {
                old(self).len()
            } else {
                old(self).len() + 1
            },
    {
        let ghost pre = *self;
        let info = PackageInfo { url, build: None, is_dependency, dependencies };
        let ghost info_v = info@;
        let pos = self.position_of(&package);
        match pos {
            Some(i) => {
                let ghost key = self.entries@[i as int].0;
                self.entries[i] = (package, info);
                proof {
                    assert(self.entries@ =~= pre.entries@.update(
                        i as int,
                        self.entries@[i as int],
                    ));
                    assert forall|m: int, j: int|
                        0 <= m < j < self.entries@.len() implies self.entries@[m].0@
                        != self.entries@[j].0@ by {
                        assert(pre.entries@[m].0@ != pre.entries@[j].0@);
                    }
                    self.lemma_index_unique(i as int, package@);
                    assert forall|n: Seq<char>| n != package@ implies (self.contains_name(n)
                        == pre.contains_name(n)) by {
                        if pre.contains_name(n) {
                            let k = pre.index_of(n);
                            assert(self.entries@[k].0@ == n);
                        }
                        if self.contains_name(n) {
                            let k = self.index_of(n);
                            assert(pre.entries@[k].0@ == n);
                        }
                    }
                    assert forall|n: Seq<char>| n != package@ && pre.contains_name(n)
                        implies self.at(n) == pre.at(n) by {
                        let k = pre.index_of(n);
                        assert(self.entries@[k].0@ == n);
                        self.lemma_index_unique(k, n);
                        pre.lemma_index_unique(k, n);
                    }
                }
            },
            None => {
                let ghost oldlen = self.entries@.len() as int;
                self.entries.push((package, info));
                proof {
                    assert forall|m: int, j: int|
                        0 <= m < j < self.entries@.len() implies self.entries@[m].0@
                        != self.entries@[j].0@ by {
                        if j < oldlen {
                            assert(pre.entries@[m].0@ != pre.entries@[j].0@);
                        } else {
                            assert(self.entries@[j].0@ == package@);
                            assert(pre.entries@[m].0@ == self.entries@[m].0@);
                            assert(pre.contains_name(self.entries@[m].0@));
                        }
                    }
                    self.lemma_index_unique(oldlen, package@);
                    assert forall|n: Seq<char>| n != package@ implies (self.contains_name(n)
                        == pre.contains_name(n)) by {
                        if pre.contains_name(n) {
                            let k = pre.index_of(n);
                            assert(self.entries@[k].0@ == n);
                        }
                        if self.contains_name(n) {
                            let k = self.index_of(n);
                            assert(0 <= k < oldlen);
                            assert(pre.entries@[k].0@ == n);
                        }
                    }
                    assert forall|n: Seq<char>| n != package@ && pre.contains_name(n)
                        implies self.at(n) == pre.at(n) by {
                        let k = pre.index_of(n);
                        assert(self.entries@[k].0@ == n);
                        self.lemma_index_unique(k, n);
                        pre.lemma_index_unique(k, n);
                    }
                }
            },
        }
    }

    /// Starts tracking a registry package (no source URL).
    pub fn track_package(
        &mut self,
        package: String,
        dependencies: Vec<String>,
        is_dependency: bool,
    )
        requires
            old(self).wf(),
        ensures
            final(self).wf(),
            final(self).contains_name(package@),
            final(self).at(package@) == (PackageInfoView {
                url: None,
                is_dependency: is_dependency,
                dependencies: dependencies.deep_view(),
                build: None,
            }),
            forall|n: Seq<char>| n != package@
                ==> (final(self).contains_name(n) == old(self).contains_name(n)),
            forall|n: Seq<char>| n != package@ && old(self).contains_name(n)
                ==> final(self).at(n) == old(self).at(n),
    {
        self.track_package_inner(package, None, dependencies, is_dependency);
    }

    /// Starts tracking a package that builds from a clonable source URL.
    pub fn track_package_url(&mut self, package: String, url: String, dependencies: Vec<String>)
        requires
            old(self).wf(),
        ensures
            final(self).wf(),
            final(self).contains_name(package@),
            final(self).at(package@) == (PackageInfoView {
                url: Some(url@),
                is_dependency: false,
                dependencies: dependencies.deep_view(),
                build: None,
            }),
            forall|n: Seq<char>| n != package@
                ==> (final(self).contains_name(n) == old(self).contains_name(n)),
            forall|n: Seq<char>| n != package@ && old(self).contains_name(n)
                ==> final(self).at(n) == old(self).at(n),
    {
        self.track_package_inner(package, Some(url), dependencies, false);
    }

    /// Records a successful build of `package`. A name that is not tracked
    /// (it raced with a removal) leaves the state unchanged.
    pub fn build_package(&mut self, package: &String, build_time: i64, files: Vec<String>)
        requires
            old(self).wf(),
        ensures
            final(self).wf(),
            forall|n: Seq<char>|
                final(self).contains_name(n) == old(self).contains_name(n),
            old(self).contains_name(package@) ==> final(self).at(package@)
                == (PackageInfoView {
                build: Some(BuildView { time: build_time as int, files: files.deep_view() }),
                ..old(self).at(package@)
            }),
            forall|n: Seq<char>| n != package@ && old(self).contains_name(n)
                ==> final(self).at(n) == old(self).at(n),
            !old(self).contains_name(package@) ==> *final(self) == *old(self),
    {
        let ghost pre = *self;
        let pos = self.position_of(package);
        match pos {
            Some(i) => {
                self.entries[i].1.build = Some(Build { time: build_time, files });
                proof {
                    assert(self.entries@ =~= pre.entries@.update(
                        i as int,
                        self.entries@[i as int],
                    ));
                    assert(self.entries@[i as int].0@ == package@);
                    assert forall|m: int, j: int|
                        0 <= m < j < self.entries@.len() implies self.entries@[m].0@
                        != self.entries@[j].0@ by {
                        assert(pre.entries@[m].0@ != pre.entries@[j].0@);
                    }
                    self.lemma_index_unique(i as int, package@);
                    assert forall|n: Seq<char>| self.contains_name(n)
                        == pre.contains_name(n) by {
                        if pre.contains_name(n) {
                            let k = pre.index_of(n);
                            assert(self.entries@[k].0@ == n);
                        }
                        if self.contains_name(n) {
                            let k = self.index_of(n);
                            assert(pre.entries@[k].0@ == n);
                        }
                    }
                    assert forall|n: Seq<char>| n != package@ && pre.contains_name(n)
                        implies self.at(n) == pre.at(n) by {
                        let k = pre.index_of(n);
                        assert(self.entries@[k].0@ == n);
                        self.lemma_index_unique(k, n);
                        pre.lemma_index_unique(k, n);
                    }
                }
            },
            None => {},
        }
    }

    /// Stops tracking every package named in `packages`.
    #[verifier::rlimit(50)]
    pub fn remove_packages(&mut self, packages: &Vec<String>)
        requires
            old(self).wf(),
        ensures
            final(self).wf(),
            forall|n: Seq<char>| final(self).contains_name(n)
                == (old(self).contains_name(n) && !packages.deep_view().contains(n)),
            forall|n: Seq<char>| final(self).contains_name(n)
                ==> final(self).at(n) == old(self).at(n),
    {
        let ghost pre = *self;
        let ghost pkgs = packages.deep_view();
        proof {
            lemma_entries_subset_refl(self.entries@);
        }
        let mut i: usize = 0;
        while i < self.entries.len()
            invariant
                pre.wf(),
                self.wf(),
                i <= self.entries@.len(),
                pkgs == packages.deep_view(),
                forall|k: int| 0 <= k < i
                    ==> !contains_str(pkgs, #[trigger] self.entries@[k].0@),
                entries_subset(self.entries@, pre.entries@),
                entries_cover(pre.entries@, self.entries@, pkgs),
            decreases self.entries@.len() - i,
        {
            if contains_string(packages, &self.entries[i].0) {
                let ghost mid = *self;
                self.entries.remove(i);
                proof {
                    assert(self.entries@ == mid.entries@.remove(i as int));
                    lemma_unique_remove(mid.entries@, i as int);
                    lemma_entries_subset_remove(mid.entries@, i as int);
                    lemma_entries_subset_trans(self.entries@, mid.entries@, pre.entries@);
                    lemma_entries_cover_remove(pre.entries@, mid.entries@, i as int, pkgs);
                    assert forall|k: int| 0 <= k < i
                        implies !contains_str(pkgs, #[trigger] self.entries@[k].0@) by {
                        assert(self.entries@[k] == mid.entries@[k]);
                    }
                }
            } else {
                i += 1;
            }
        }
        proof {
            let post = *self;
            assert forall|nm: Seq<char>| post.contains_name(nm) == (pre.contains_name(nm)
                && !pkgs.contains(nm)) by {
                if post.contains_name(nm) {
                    let k = post.index_of(nm);
                    assert(post.entries@[k].0@ == nm);
                    assert(!contains_str(pkgs, post.entries@[k].0@));
                    assert(pre.entries@.contains(post.entries@[k]));
                    let j = choose|j: int| 0 <= j < pre.entries@.len()
                        && pre.entries@[j] == post.entries@[k];
                    assert(pre.entries@[j].0@ == nm);
                }
                if pre.contains_name(nm) && !pkgs.contains(nm) {
                    let j = pre.index_of(nm);
                    assert(!contains_str(pkgs, pre.entries@[j].0@));
                    assert(post.entries@.contains(pre.entries@[j]));
                    let k = choose|k: int| 0 <= k < post.entries@.len()
                        && post.entries@[k] == pre.entries@[j];
                    assert(post.entries@[k].0@ == nm);
                }
            }
            assert forall|nm: Seq<char>| post.contains_name(nm) implies post.at(nm)
                == pre.at(nm) by {
                let k = post.index_of(nm);
                post.lemma_index_unique(k, nm);
                assert(pre.entries@.contains(post.entries@[k]));
                let j = choose|j: int| 0 <= j < pre.entries@.len()
                    && pre.entries@[j] == post.entries@[k];
                assert(pre.entries@[j] == post.entries@[k]);
                pre.lemma_index_unique(j, nm);
            }
        }
    }
}

/// Every element of `a` occurs somewhere in `b`.
spec fn entries_subset(a: Seq<(String, PackageInfo)>, b: Seq<(String, PackageInfo)>) -> bool {
    forall|k: int| #![trigger a[k]] 0 <= k < a.len() ==> b.contains(a[k])
}

/// Every element of `b` whose name stands in `names` is gone from `a`; the
/// rest survive in `a`.
spec fn entries_cover(
    b: Seq<(String, PackageInfo)>,
    a: Seq<(String, PackageInfo)>,
    names: Seq<Seq<char>>,
) -> bool {
    forall|j: int| #![trigger b[j]] 0 <= j < b.len()
        ==> contains_str(names, b[j].0@) || a.contains(b[j])
}

proof fn lemma_entries_subset_refl(a: Seq<(String, PackageInfo)>)
    ensures
        entries_subset(a, a),
        forall|names: Seq<Seq<char>>| entries_cover(a, a, names),
{
    assert forall|k: int| 0 <= k < a.len() implies a.contains(a[k]) by {
        assert(a[k] == a[k]);
    }
}

proof fn lemma_unique_remove(s: Seq<(String, PackageInfo)>, i: int)
    requires
        0 <= i < s.len(),
        forall|m: int, j: int| 0 <= m < j < s.len() ==> s[m].0@ != s[j].0@,
    ensures
        forall|m: int, j: int| 0 <= m < j < s.remove(i).len()
            ==> s.remove(i)[m].0@ != s.remove(i)[j].0@,
{
    let r = s.remove(i);
    assert forall|m: int, j: int| 0 <= m < j < r.len() implies r[m].0@ != r[j].0@ by {
        let m2: int = if m < i { m } else { m + 1 };
        let j2: int = if j < i { j } else { j + 1 };
        assert(r[m] == s[m2]);
        assert(r[j] == s[j2]);
    }
}

proof fn lemma_entries_subset_remove(s: Seq<(String, PackageInfo)>, i: int)
    requires
        0 <= i < s.len(),
    ensures
        entries_subset(s.remove(i), s),
{
    let r = s.remove(i);
    assert forall|k: int| 0 <= k < r.len() implies s.contains(r[k]) by {
        let k2: int = if k < i { k } else { k + 1 };
        assert(r[k] == s[k2]);
    }
}

proof fn lemma_entries_subset_trans(
    a: Seq<(String, PackageInfo)>,
    b: Seq<(String, PackageInfo)>,
    c: Seq<(String, PackageInfo)>,
)
    requires
        entries_subset(a, b),
        entries_subset(b, c),
    ensures
        entries_subset(a, c),
{
    assert forall|k: int| 0 <= k < a.len() implies c.contains(a[k]) by {
        assert(b.contains(a[k]));
        let jb = choose|jb: int| 0 <= jb < b.len() && b[jb] == a[k];
        assert(b[jb] == a[k]);
        assert(c.contains(b[jb]));
    }
}

proof fn lemma_entries_cover_remove(
    b: Seq<(String, PackageInfo)>,
    mid: Seq<(String, PackageInfo)>,
    i: int,
    names: Seq<Seq<char>>,
)
    requires
        entries_cover(b, mid, names),
        0 <= i < mid.len(),
        contains_str(names, mid[i].0@),
    ensures
        entries_cover(b, mid.remove(i), names),
{
    let r = mid.remove(i);
    assert forall|j: int| 0 <= j < b.len() && !contains_str(names, b[j].0@)
        implies r.contains(b[j]) by {
        assert(mid.contains(b[j]));
        let k = choose|k: int| 0 <= k < mid.len() && mid[k] == b[j];
        assert(mid[k] == b[j]);
        assert(k != i);
        let k2: int = if k < i { k } else { k - 1 };
        assert(r[k2] == mid[k]);
    }
}

/// The names of all tracked packages, in entry order.
pub open spec fn entry_names(s: Seq<(String, PackageInfo)>) -> Seq<Seq<char>>
    decreases s.len(),
{
    if s.len() == 0 {
        Seq::empty()
    } else {
        entry_names(s.drop_last()).push(s.last().0@)
    }
}

/// The names of the tracked registry packages (those without a source URL),
/// in entry order.
pub open spec fn aur_names(s: Seq<(String, PackageInfo)>) -> Seq<Seq<char>>
    decreases s.len(),
{
    if s.len() == 0 {
        Seq::empty()
    } else {
        let rest = aur_names(s.drop_last());
        if s.last().1.url is None {
            rest.push(s.last().0@)
        } else {
            rest
        }
    }
}

/// The `(name, url)` pairs of the tracked packages that build from a source
/// URL, in entry order.
pub open spec fn url_entries(s: Seq<(String, PackageInfo)>) -> Seq<(Seq<char>, Seq<char>)>
    decreases s.len(),
{
    if s.len() == 0 {
        Seq::empty()
    } else {
        let rest = url_entries(s.drop_last());
        match s.last().1.url {
            Some(u) => rest.push((s.last().0@, u@)),
            None => rest,
        }
    }
}

/// Every artifact file name recorded by any tracked package, in entry order.
pub open spec fn all_recorded_files(s: Seq<(String, PackageInfo)>) -> Seq<Seq<char>>
    decreases s.len(),
{
    if s.len() == 0 {
        Seq::empty()
    } else {
        let rest = all_recorded_files(s.drop_last());
        match s.last().1.build {
            Some(b) => rest + b.files.deep_view(),
            None => rest,
        }
    }
}

/// The git URL that the upstream registry serves for package `p`.
pub open spec fn aur_git_url(p: Seq<char>) -> Seq<char> {
    "https://aur.archlinux.org/"@ + p + ".git"@
}

impl State {
    /// The tracked package names.
    pub fn tracked_packages(&self) -> (r: Vec<String>)
        ensures
            r.deep_view() == entry_names(self.entries@),
    {
        let mut r: Vec<String> = Vec::new();
        let n = self.entries.len();
        let mut i: usize = 0;
        while i < n
            invariant
                i <= n,
                n == self.entries@.len(),
                r.deep_view() =~= entry_names(self.entries@.take(i as int)),
            decreases n - i,
        {
            proof {
                assert(self.entries@.take(i + 1).drop_last() =~= self.entries@.take(i as int));
                assert(self.entries@.take(i + 1).last() == self.entries@[i as int]);
            }
            r.push(self.entries[i].0.clone());
            proof {
                assert(r.deep_view() =~= entry_names(self.entries@.take(i + 1)));
            }
            i += 1;
        }
        proof {
            assert(self.entries@.take(n as int) =~= self.entries@);
        }
        r
    }

    /// The names of the tracked registry packages.
    pub fn tracked_packages_aur(&self) -> (r: Vec<String>)
        ensures
            r.deep_view() == aur_names(self.entries@),
    {
        let mut r: Vec<String> = Vec::new();
        let n = self.entries.len();
        let mut i: usize = 0;
        while i < n
            invariant
                i <= n,
                n == self.entries@.len(),
                r.deep_view() =~= aur_names(self.entries@.take(i as int)),
            decreases n - i,
        {
            proof {
                assert(self.entries@.take(i + 1).drop_last() =~= self.entries@.take(i as int));
                assert(self.entries@.take(i + 1).last() == self.entries@[i as int]);
            }
            if self.entries[i].1.url.is_none() {
                r.push(self.entries[i].0.clone());
            }
            proof {
                assert(r.deep_view() =~= aur_names(self.entries@.take(i + 1)));
            }
            i += 1;
        }
        proof {
            assert(self.entries@.take(n as int) =~= self.entries@);
        }
        r
    }

    /// The `(name, url)` pairs of the tracked source-URL packages.
    pub fn tracked_packages_url(&self) -> (r: Vec<(String, String)>)
        ensures
            r.deep_view() == url_entries(self.entries@),
    {
        let mut r: Vec<(String, String)> = Vec::new();
        let n = self.entries.len();
        let mut i: usize = 0;
        while i < n
            invariant
                i <= n,
                n == self.entries@.len(),
                r.deep_view() =~= url_entries(self.entries@.take(i as int)),
            decreases n - i,
        {
            proof {
                assert(self.entries@.take(i + 1).drop_last() =~= self.entries@.take(i as int));
                assert(self.entries@.take(i + 1).last() == self.entries@[i as int]);
            }
            match &self.entries[i].1.url {
                Some(u) => {
                    r.push((self.entries[i].0.clone(), u.clone()));
                },
                None => {},
            }
            proof {
                assert(r.deep_view() =~= url_entries(self.entries@.take(i + 1)));
            }
            i += 1;
        }
        proof {
            assert(self.entries@.take(n as int) =~= self.entries@);
        }
        r
    }

    /// The URL a build of `package` clones: the stored URL for a source-URL
    /// package, the registry's git URL otherwise; `None` when not tracked.
    pub fn get_build_url(&self, package: &String) -> (r: Option<String>)
        requires
            self.wf(),
        ensures
            r is Some <==> self.contains_name(package@),
            self.contains_name(package@) ==> r->0@ == (match self.at(package@).url {
                Some(u) => u,
                None => aur_git_url(package@),
            }),
    {
        let pos = self.position_of(package);
        match pos {
            Some(i) => match &self.entries[i].1.url {
                Some(u) => Some(u.clone()),
                None => {
                    let base = String::from_str("https://aur.archlinux.org/");
                    let with_name = base.concat(package.as_str());
                    Some(with_name.concat(".git"))
                },
            },
            None => None,
        }
    }

    /// Whether every dependency of `package` has a recorded build; false for
    /// a name that is not tracked.
    pub fn are_dependencies_met(&self, package: &String) -> (r: bool)
        requires
            self.wf(),
        ensures
            r == self.deps_met(package@),
    {
        let pos = self.position_of(package);
        let i = match pos {
            Some(i) => i,
            None => {
                return false;
            },
        };
        let n = self.entries[i].1.dependencies.len();
        let ghost deps = self.at(package@).dependencies;
        proof {
            assert(deps =~= self.entries@[i as int].1.dependencies.deep_view());
        }
        let mut k: usize = 0;
        while k < n
            invariant
                k <= n,
                self.wf(),
                i < self.entries@.len(),
                self.entries@[i as int].0@ == package@,
                self.contains_name(package@),
                n == self.entries@[i as int].1.dependencies@.len(),
                deps == self.at(package@).dependencies,
                deps.len() == n,
                forall|m: int| 0 <= m < k ==> self.contains_name(#[trigger] deps[m])
                    && self.at(deps[m]).build is Some,
            decreases n - k,
        {
            proof {
                assert(deps[k as int] == self.entries@[i as int].1.dependencies@[k as int]@);
            }
            let dep = &self.entries[i].1.dependencies[k];
            match self.position_of(dep) {
                Some(di) => {
                    proof {
                        self.lemma_index_unique(di as int, dep@);
                    }
                    if self.entries[di].1.build.is_none() {
                        return false;
                    }
                },
                None => {
                    return false;
                },
            }
            k += 1;
        }
        true
    }

    /// The names among `packages` that are tracked and have a recorded build,
    /// each with its build time.
    pub fn get_build_times(&self, packages: &Vec<String>) -> (r: Vec<(String, i64)>)
        requires
            self.wf(),
        ensures
            forall|k: int| 0 <= k < r@.len() ==> {
                let p = (#[trigger] r@[k]).0@;
                contains_str(packages.deep_view(), p) && self.contains_name(p)
                    && self.at(p).build is Some && self.at(p).build->0.time == r@[k].1
            },
            forall|n: Seq<char>| contains_str(packages.deep_view(), n) && self.contains_name(n)
                && self.at(n).build is Some
                ==> exists|k: int| 0 <= k < r@.len() && (#[trigger] r@[k]).0@ == n,
            forall|k: int, m: int| 0 <= k < m < r@.len() ==> r@[k].0@ != r@[m].0@,
    {
        let mut r: Vec<(String, i64)> = Vec::new();
        let n = self.entries.len();
        let mut i: usize = 0;
        while i < n
            invariant
                i <= n,
                n == self.entries@.len(),
                self.wf(),
                forall|k: int| 0 <= k < r@.len() ==> {
                    let p = (#[trigger] r@[k]).0@;
                    contains_str(packages.deep_view(), p) && self.contains_name(p)
                        && self.at(p).build is Some && self.at(p).build->0.time == r@[k].1
                },
                forall|j: int| 0 <= j < i && contains_str(
                    packages.deep_view(),
                    (#[trigger] self.entries@[j]).0@,
                ) && self.entries@[j].1.build is Some
                    ==> exists|k: int| 0 <= k < r@.len() && (#[trigger] r@[k]).0@
                        == self.entries@[j].0@,
                forall|k: int, m: int| 0 <= k < m < r@.len() ==> r@[k].0@ != r@[m].0@,
                forall|k: int| 0 <= k < r@.len() ==> exists|j: int|
                    0 <= j < i && (#[trigger] r@[k]).0@ == self.entries@[j].0@,
            decreases n - i,
        {
            let in_set = contains_string(packages, &self.entries[i].0);
            let ghost oldr = r@;
            if in_set {
                match &self.entries[i].1.build {
                    Some(b) => {
                        proof {
                            self.lemma_index_unique(i as int, self.entries@[i as int].0@);
                        }
                        let time = b.time;
                        r.push((self.entries[i].0.clone(), time));
                        proof {
                            assert forall|k: int, m: int| 0 <= k < m < r@.len()
                                implies r@[k].0@ != r@[m].0@ by {
                                if m == r@.len() - 1 {
                                    let j = choose|j: int| 0 <= j < i
                                        && r@[k].0@ == self.entries@[j].0@;
                                    assert(self.entries@[j].0@ != self.entries@[i as int].0@);
                                }
                            }
                        }
                    },
                    None => {},
                }
            }
            proof {
                assert forall|j: int| 0 <= j < i + 1 && contains_str(
                    packages.deep_view(),
                    (#[trigger] self.entries@[j]).0@,
                ) && self.entries@[j].1.build is Some
                    implies exists|k: int| 0 <= k < r@.len() && (#[trigger] r@[k]).0@
                        == self.entries@[j].0@ by {
                    if j < i {
                        let k = choose|k: int| 0 <= k < oldr.len() && oldr[k].0@
                            == self.entries@[j].0@;
                        assert(r@[k].0@ == self.entries@[j].0@);
                    } else {
                        assert(r@[r@.len() - 1].0@ == self.entries@[i as int].0@);
                    }
                }
            }
            i += 1;
        }
        proof {
            assert forall|nm: Seq<char>| contains_str(packages.deep_view(), nm)
                && self.contains_name(nm) && self.at(nm).build is Some
                implies exists|k: int| 0 <= k < r@.len() && (#[trigger] r@[k]).0@ == nm by {
                let j = self.index_of(nm);
                assert(self.entries@[j].0@ == nm);
                assert(self.entries@[j].1.build is Some);
            }
        }
        r
    }

    /// The artifact files recorded for `package`; empty when it is not
    /// tracked or was never built.
    pub fn get_files(&self, package: &String) -> (r: Vec<String>)
        requires
            self.wf(),
        ensures
            self.contains_name(package@) && self.at(package@).build is Some
                ==> r.deep_view() == self.at(package@).build->0.files,
            !(self.contains_name(package@) && self.at(package@).build is Some)
                ==> r@.len() == 0,
    {
        let pos = self.position_of(package);
        match pos {
            Some(i) => match &self.entries[i].1.build {
                Some(b) => clone_string_vec(&b.files),
                None => Vec::new(),
            },
            None => Vec::new(),
        }
    }

    /// Every artifact file recorded in the state, in entry order.
    pub fn get_all_files(&self) -> (r: Vec<String>)
        ensures
            r.deep_view() == all_recorded_files(self.entries@),
    {
        let mut r: Vec<String> = Vec::new();
        let n = self.entries.len();
        let mut i: usize = 0;
        while i < n
            invariant
                i <= n,
                n == self.entries@.len(),
                r.deep_view() =~= all_recorded_files(self.entries@.take(i as int)),
            decreases n - i,
        {
            proof {
                assert(self.entries@.take(i + 1).drop_last() =~= self.entries@.take(i as int));
                assert(self.entries@.take(i + 1).last() == self.entries@[i as int]);
            }
            match &self.entries[i].1.build {
                Some(b) => {
                    let mut files = clone_string_vec(&b.files);
                    r.append(&mut files);
                },
                None => {},
            }
            proof {
                assert(r.deep_view() =~= all_recorded_files(self.entries@.take(i + 1)));
            }
            i += 1;
        }
        proof {
            assert(self.entries@.take(n as int) =~= self.entries@);
        }
        r
    }

    /// The packages that were added only as dependencies and that no tracked
    /// package still needs: the garbage of a remove transaction.
    pub fn unneeded_dependencies(&self) -> (r: Vec<String>)
        requires
            self.wf(),
        ensures
            forall|k: int| 0 <= k < r@.len() ==> self.is_unneeded((#[trigger] r@[k])@),
            forall|n: Seq<char>| self.is_unneeded(n) ==> contains_str(r.deep_view(), n),
            forall|k: int, m: int| 0 <= k < m < r@.len() ==> r@[k]@ != r@[m]@,
    {
        let mut r: Vec<String> = Vec::new();
        let n = self.entries.len();
        let mut i: usize = 0;
        while i < n
            invariant
                i <= n,
                n == self.entries@.len(),
                self.wf(),
                forall|k: int| 0 <= k < r@.len() ==> self.is_unneeded((#[trigger] r@[k])@),
                forall|j: int| 0 <= j < i && self.is_unneeded((#[trigger] self.entries@[j]).0@)
                    ==> contains_str(r.deep_view(), self.entries@[j].0@),
                forall|k: int| 0 <= k < r@.len() ==> exists|j: int|
                    0 <= j < i && (#[trigger] r@[k])@ == self.entries@[j].0@,
                forall|k: int, m: int| 0 <= k < m < r@.len() ==> r@[k]@ != r@[m]@,
            decreases n - i,
        {
            let ghost oldr = r@;
            if self.entries[i].1.is_dependency {
                let needed = self.is_required_exec(&self.entries[i].0);
                if !needed {
                    proof {
                        self.lemma_index_unique(i as int, self.entries@[i as int].0@);
                    }
                    r.push(self.entries[i].0.clone());
                    proof {
                        assert(r.deep_view()[r@.len() - 1] == self.entries@[i as int].0@);
                        assert(contains_str(r.deep_view(), self.entries@[i as int].0@));
                        assert forall|k: int, m: int| 0 <= k < m < r@.len()
                            implies r@[k]@ != r@[m]@ by {
                            if m == r@.len() - 1 {
                                let j = choose|j: int| 0 <= j < i
                                    && r@[k]@ == self.entries@[j].0@;
                                assert(self.entries@[j].0@ != self.entries@[i as int].0@);
                            }
                        }
                    }
                }
            }
            proof {
                assert forall|j: int| 0 <= j < i + 1
                    && self.is_unneeded((#[trigger] self.entries@[j]).0@)
                    implies contains_str(r.deep_view(), self.entries@[j].0@) by {
                    if j < i {
                        let k = choose|k: int| 0 <= k < oldr.len() && oldr[k]@
                            == self.entries@[j].0@;
                        assert(r.deep_view()[k] == self.entries@[j].0@);
                    } else {
                        self.lemma_index_unique(i as int, self.entries@[i as int].0@);
                    }
                }
            }
            i += 1;
        }
        proof {
            assert forall|nm: Seq<char>| self.is_unneeded(nm)
                implies contains_str(r.deep_view(), nm) by {
                let j = self.index_of(nm);
                assert(self.entries@[j].0@ == nm);
            }
        }
        r
    }

    /// Whether some tracked package lists `name` among its dependencies.
    fn is_required_exec(&self, name: &String) -> (r: bool)
        ensures
            r == self.is_required(name@),
    {
        let n = self.entries.len();
        let mut i: usize = 0;
        while i < n
            invariant
                i <= n,
                n == self.entries@.len(),
                forall|j: int, k: int|
                    #![trigger self.entries@[j].1.dependencies@[k]]
                    0 <= j < i && 0 <= k < self.entries@[j].1.dependencies@.len()
                        ==> self.entries@[j].1.dependencies@[k]@ != name@,
            decreases n - i,
        {
            if contains_string(&self.entries[i].1.dependencies, name) {
                proof {
                    let dv = self.entries@[i as int].1.dependencies.deep_view();
                    let k = choose|k: int| 0 <= k < dv.len() && dv[k] == name@;
                    assert(self.entries@[i as int].1.dependencies@[k]@ == name@);
                }
                return true;
            }
            proof {
                assert forall|k: int|
                    0 <= k < self.entries@[i as int].1.dependencies@.len()
                    implies self.entries@[i as int].1.dependencies@[k]@ != name@ by {
                    let dv = self.entries@[i as int].1.dependencies.deep_view();
                    assert(dv[k] == self.entries@[i as int].1.dependencies@[k]@);
                }
            }
            i += 1;
        }
        false
    }
}

/// Clones a list of names; the result holds the same strings.
pub fn clone_string_vec(v: &Vec<String>) -> (r: Vec<String>)
    ensures
        r@ == v@,
{
    let mut r: Vec<String> = Vec::new();
    let n = v.len();
    let mut i: usize = 0;
    while i < n
        invariant
            i <= n,
            n == v@.len(),
            r@ =~= v@.take(i as int),
        decreases n - i,
    {
        r.push(v[i].clone());
        proof {
            assert(r@ =~= v@.take(i + 1));
        }
        i += 1;
    }
    proof {
        assert(v@.take(n as int) =~= v@);
    }
    r
}

/// The ephemeral set of container IDs that the orchestrator is supervising;
/// `GET /key` authenticates a worker against it.
pub struct ActiveContainers {
    pub ids: Vec<String>,
}

impl ActiveContainers {
    /// IDs are unique.
    pub open spec fn wf(self) -> bool {
        forall|i: int, j: int| 0 <= i < j < self.ids@.len() ==> self.ids@[i]@ != self.ids@[j]@
    }

    pub open spec fn contains_id(self, n: Seq<char>) -> bool {
        self.ids.deep_view().contains(n)
    }

    pub fn new() -> (r: ActiveContainers)
        ensures
            r.wf(),
            forall|n: Seq<char>| !r.contains_id(n),
            r.ids@.len() == 0,
    {
        ActiveContainers { ids: Vec::new() }
    }

    /// Records a newly started container.
    pub fn add_running_container(&mut self, id: String)
        requires
            old(self).wf(),
        ensures
            final(self).wf(),
            forall|n: Seq<char>| final(self).contains_id(n)
                == (old(self).contains_id(n) || n == id@),
            final(self).ids@.len() <= old(self).ids@.len() + 1,
    {
        let present = contains_string(&self.ids, &id);
        if !present {
            let ghost oldids = self.ids.deep_view();
            self.ids.push(id);
            proof {
                assert forall|i: int, j: int| 0 <= i < j < self.ids@.len()
                    implies self.ids@[i]@ != self.ids@[j]@ by {
                    if j == self.ids@.len() - 1 {
                        assert(oldids[i] == self.ids@[i]@);
                        assert(!oldids.contains(self.ids@[j]@));
                    }
                }
                assert forall|n: Seq<char>| self.contains_id(n)
                    == (oldids.contains(n) || n == id@) by {
                    if oldids.contains(n) {
                        let k = choose|k: int| 0 <= k < oldids.len() && oldids[k] == n;
                        assert(self.ids.deep_view()[k] == n);
                    }
                    if n == id@ {
                        assert(self.ids.deep_view()[self.ids@.len() - 1] == n);
                    }
                    if self.contains_id(n) {
                        let k = choose|k: int| 0 <= k < self.ids.deep_view().len()
                            && self.ids.deep_view()[k] == n;
                        if k < self.ids@.len() - 1 {
                            assert(oldids[k] == n);
                        }
                    }
                }
            }
        }
    }

    /// Forgets a container that has exited or was stopped.
    pub fn remove_running_container(&mut self, id: &String)
        requires
            old(self).wf(),
        ensures
            final(self).wf(),
            forall|n: Seq<char>| final(self).contains_id(n)
                == (old(self).contains_id(n) && n != id@),
    {
        let ghost pre = *self;
        let n = self.ids.len();
        let mut i: usize = 0;
        while i < n
            invariant
                i <= n,
                *self == pre,
                pre == *old(self),
                pre.wf(),
                n == self.ids@.len(),
                forall|j: int| 0 <= j < i ==> pre.ids@[j]@ != id@,
            decreases n - i,
        {
            if self.ids[i] == *id {
                self.ids.remove(i);
                proof {
                    assert(self.ids@ == pre.ids@.remove(i as int));
                    assert forall|m: int, j: int| 0 <= m < j < self.ids@.len()
                        implies self.ids@[m]@ != self.ids@[j]@ by {
                        let m2: int = if m < i { m } else { m + 1 };
                        let j2: int = if j < i { j } else { j + 1 };
                        assert(self.ids@[m] == pre.ids@[m2]);
                        assert(self.ids@[j] == pre.ids@[j2]);
                    }
                    assert(pre.ids@[i as int]@ == id@);
                    assert forall|nm: Seq<char>| self.contains_id(nm)
                        implies (pre.contains_id(nm) && nm != id@) by {
                        let k = choose|k: int| 0 <= k < self.ids.deep_view().len()
                            && self.ids.deep_view()[k] == nm;
                        let k2: int = if k < i { k } else { k + 1 };
                        assert(self.ids@[k] == pre.ids@[k2]);
                        assert(pre.ids.deep_view()[k2] == nm);
                        assert(k2 != i);
                        assert(pre.ids@[k2]@ != pre.ids@[i as int]@);
                    }
                    assert forall|nm: Seq<char>| pre.contains_id(nm) && nm != id@
                        implies self.contains_id(nm) by {
                        let k = choose|k: int| 0 <= k < pre.ids.deep_view().len()
                            && pre.ids.deep_view()[k] == nm;
                        assert(pre.ids@[k]@ == nm);
                        assert(k != i);
                        let k2: int = if k < i { k } else { k - 1 };
                        assert(self.ids@[k2] == pre.ids@[k]);
                        assert(self.ids.deep_view()[k2] == nm);
                    }

                }
                return ;
            }
            proof {
                assert(pre.ids.deep_view()[i as int] == pre.ids@[i as int]@);
            }
            i += 1;
        }
        proof {
            assert forall|nm: Seq<char>| self.contains_id(nm)
                == (pre.contains_id(nm) && nm != id@) by {
                if pre.contains_id(nm) && nm == id@ {
                    let k = choose|k: int| 0 <= k < pre.ids.deep_view().len()
                        && pre.ids.deep_view()[k] == nm;
                    assert(pre.ids@[k]@ != id@);
                }
            }
        }
    }

    /// Whether `id` names a container the orchestrator is supervising: the
    /// authentication test of `GET /key`.
    pub fn is_container_running(&self, id: &String) -> (r: bool)
        ensures
            r == self.contains_id(id@),
    {
        contains_string(&self.ids, id)
    }
}

/// Tracking closure is preserved by inserting a package once every name it
/// depends on is tracked too: after an add transaction has settled (the
/// package and all its transitive dependencies inserted), every referenced
/// dependency name has an entry.
pub proof fn lemma_insert_preserves_closure(pre: State, post: State, p: Seq<char>)
    requires
        pre.closed(),
        post.contains_name(p),
        forall|n: Seq<char>| post.contains_name(n) <==> (pre.contains_name(n) || n == p),
        forall|n: Seq<char>| n != p && pre.contains_name(n) ==> post.at(n) == pre.at(n),
        forall|k: int| 0 <= k < post.at(p).dependencies.len()
            ==> post.contains_name(#[trigger] post.at(p).dependencies[k]),
    ensures
        post.closed(),
{
    assert forall|n: Seq<char>, k: int|
        post.contains_name(n) && 0 <= k < post.at(n).dependencies.len()
        implies post.contains_name(#[trigger] post.at(n).dependencies[k]) by {
        if n != p {
            assert(pre.contains_name(n));
            assert(post.at(n) == pre.at(n));
            assert(pre.contains_name(pre.at(n).dependencies[k]));
        }
    }
}

/// Tracking closure is preserved by a removal whose removed names are not
/// referenced by any surviving package. (Removing a package that a survivor
/// still lists as a dependency breaks closure; such a removal is outside this
/// law's premise.)
pub proof fn lemma_remove_preserves_closure(pre: State, post: State, removed: Seq<Seq<char>>)
    requires
        pre.closed(),
        forall|n: Seq<char>| post.contains_name(n)
            <==> (pre.contains_name(n) && !removed.contains(n)),
        forall|n: Seq<char>| post.contains_name(n) ==> post.at(n) == pre.at(n),
        forall|n: Seq<char>, k: int|
            post.contains_name(n) && 0 <= k < post.at(n).dependencies.len()
                ==> !removed.contains(#[trigger] post.at(n).dependencies[k]),
    ensures
        post.closed(),
{
    assert forall|n: Seq<char>, k: int|
        post.contains_name(n) && 0 <= k < post.at(n).dependencies.len()
        implies post.contains_name(#[trigger] post.at(n).dependencies[k]) by {
        assert(pre.contains_name(n));
        assert(post.at(n) == pre.at(n));
        assert(pre.contains_name(pre.at(n).dependencies[k]));
    }
}

/// Garbage-collection soundness: once the unneeded-dependency sweep reaches a
/// fixpoint (no entry is unneeded), every package that was added only as a
/// dependency is still listed as a dependency of some tracked package.
pub proof fn lemma_gc_fixpoint(s: State)
    requires
        forall|n: Seq<char>| !s.is_unneeded(n),
    ensures
        forall|n: Seq<char>| s.contains_name(n) && s.at(n).is_dependency ==> s.is_required(n),
{
    assert forall|n: Seq<char>| s.contains_name(n) && s.at(n).is_dependency
        implies s.is_required(n) by {
        assert(!s.is_unneeded(n));
    }
}

/// Membership of a name in a list of names, by contents.
pub open spec fn contains_str(v: Seq<Seq<char>>, n: Seq<char>) -> bool {
    v.contains(n)
}

/// String equality by contents.
pub fn string_eq(a: &String, b: &String) -> (r: bool)
    ensures
        r == (a@ == b@),
{
    *a == *b
}

/// Whether `name` occurs in `packages`, compared by contents.
pub fn contains_string(packages: &Vec<String>, name: &String) -> (r: bool)
    ensures
        r == contains_str(packages.deep_view(), name@),
{
    let n = packages.len();
    let mut i: usize = 0;
    while i < n
        invariant
            i <= n,
            n == packages@.len(),
            forall|j: int| 0 <= j < i ==> packages.deep_view()[j] != name@,
        decreases n - i,
    {
        if packages[i] == *name {
            proof {
                assert(packages.deep_view()[i as int] == name@);
            }
            return true;
        }
        proof {
            assert(packages.deep_view()[i as int] == packages@[i as int]@);
        }
        i += 1;
    }
    proof {
        if packages.deep_view().contains(name@) {
            let j = choose|j: int|
                0 <= j < packages.deep_view().len() && packages.deep_view()[j] == name@;
            assert(packages.deep_view()[j] != name@);
        }
    }
    false
}

} // verus!
