//! The orchestrator's decisions: the queue of pending builds, the set of
//! active build containers under the concurrency cap, dependency-respecting
//! dispatch, and the supervision rules for container states.

use vstd::prelude::*;
use vstd::string::StrSliceExecFns;
use vstd::string::StringExecFns;
use crate::numbers::{nat_to_str, u64_to_string};
use crate::query::joined_with;
use crate::state::{string_eq, State};
use crate::strutil::chars_to_string;

verus! {

/// One queued build: a package and the URL its worker clones.
pub struct BuildRequest {
    pub package: String,
    pub url: String,
}

/// A container's state, as the runtime reports it.
#[derive(Debug, PartialEq, Eq, Structural)]
pub enum ContainerStatus {
    Created,
    Restarting,
    Paused,
    Dead,
    Removing,
    Empty,
    Exited,
    Running,
}

/// What supervision decides for one container.
#[derive(Debug, PartialEq, Eq, Structural)]
pub enum ContainerAction {
    /// Exited cleanly: remove the container and forget it.
    Remove,
    /// Exited with a non-zero code: surface the logs, report the failure,
    /// remove the container.
    ReportFailureAndRemove,
    /// An unusual state worth a warning; do not intervene.
    Warn,
    /// Running normally; do nothing.
    Keep,
}

/// The supervision rule: a clean exit is removed silently, a failed exit is
/// reported and removed, a running container is left alone, and any other
/// state only draws a warning.
pub fn classify_container_state(status: ContainerStatus, exit_code: i64) -> (r: ContainerAction)
    ensures
        r == (match status {
            ContainerStatus::Exited => if exit_code == 0 {
                ContainerAction::Remove
            } else {
                ContainerAction::ReportFailureAndRemove
            },
            ContainerStatus::Running => ContainerAction::Keep,
            _ => ContainerAction::Warn,
        }),
{
    match status {
        ContainerStatus::Exited => {
            if exit_code == 0 {
                ContainerAction::Remove
            } else {
                ContainerAction::ReportFailureAndRemove
            }
        },
        ContainerStatus::Running => ContainerAction::Keep,
        _ => ContainerAction::Warn,
    }
}

/// The queue `reqs` with its first request for `n` removed.
pub open spec fn remove_first_req(s: Seq<BuildRequest>, n: Seq<char>) -> Seq<BuildRequest>
    decreases s.len(),
{
    if s.len() == 0 {
        s
    } else if s[0].package@ == n {
        s.drop_first()
    } else {
        seq![s[0]] + remove_first_req(s.drop_first(), n)
    }
}

/// The queue after removing, for each name in order, its first request.
pub open spec fn remove_queued(s: Seq<BuildRequest>, names: Seq<Seq<char>>) -> Seq<BuildRequest>
    decreases names.len(),
{
    if names.len() == 0 {
        s
    } else {
        remove_queued(remove_first_req(s, names[0]), names.drop_first())
    }
}

/// The orchestrator's in-memory state. At most `max_builders` containers run
/// at once, one per package.
pub struct Orchestrator {
    pub pending_builds: Vec<BuildRequest>,
    pub active_containers: Vec<(String, String)>,
    pub max_builders: usize,
}

impl Orchestrator {
    /// The concurrency cap holds and each package has at most one container.
    pub open spec fn wf(self) -> bool {
        &&& self.active_containers@.len() <= self.max_builders
        &&& forall|i: int, j: int| 0 <= i < j < self.active_containers@.len()
            ==> self.active_containers@[i].0@ != self.active_containers@[j].0@
    }

    /// A container is active for the package named `n`.
    pub open spec fn active_has(self, n: Seq<char>) -> bool {
        exists|i: int| 0 <= i < self.active_containers@.len()
            && self.active_containers@[i].0@ == n
    }

    pub open spec fn active_index(self, n: Seq<char>) -> int {
        choose|i: int| 0 <= i < self.active_containers@.len()
            && self.active_containers@[i].0@ == n
    }

    /// The container ID recorded for the package named `n`.
    pub open spec fn id_of(self, n: Seq<char>) -> Seq<char> {
        self.active_containers@[self.active_index(n)].1@
    }

    proof fn lemma_active_unique(self, i: int, n: Seq<char>)
        requires
            self.wf(),
            0 <= i < self.active_containers@.len(),
            self.active_containers@[i].0@ == n,
        ensures
            self.active_has(n),
            self.active_index(n) == i,
    {
        let k = self.active_index(n);
        if k != i {
            if k < i {
                assert(self.active_containers@[k].0@ != self.active_containers@[i].0@);
            } else {
                assert(self.active_containers@[i].0@ != self.active_containers@[k].0@);
            }
        }
    }

    /// A fresh orchestrator with the configured concurrency cap.
    pub fn new(max_builders: usize) -> (r: Orchestrator)
        ensures
            r.wf(),
            r.pending_builds@.len() == 0,
            r.active_containers@.len() == 0,
            r.max_builders == max_builders,
            forall|n: Seq<char>| !r.active_has(n),
    {
        Orchestrator {
            pending_builds: Vec::new(),
            active_containers: Vec::new(),
            max_builders,
        }
    }

    /// Queues a build request.
    pub fn on_build_package(&mut self, package: String, url: String)
        requires
            old(self).wf(),
        ensures
            final(self).wf(),
            final(self).pending_builds@ == old(self).pending_builds@.push(
                BuildRequest { package: package, url: url },
            ),
            final(self).active_containers == old(self).active_containers,
            final(self).max_builders == old(self).max_builders,
    {
        self.pending_builds.push(BuildRequest { package, url });
    }

    /// Whether a free build slot exists.
    pub fn can_dispatch(&self) -> (r: bool)
        ensures
            r == (self.active_containers@.len() < self.max_builders),
    {
        self.active_containers.len() < self.max_builders
    }

    /// Dependency-respecting dispatch: the first queued request whose
    /// package has every dependency built, if any.
    pub fn select_dispatch(&self, state: &State) -> (r: Option<usize>)
        requires
            state.wf(),
        ensures
            match r {
                Some(i) => i < self.pending_builds@.len()
                    && state.deps_met(self.pending_builds@[i as int].package@)
                    && forall|j: int| 0 <= j < i
                        ==> !state.deps_met(#[trigger] self.pending_builds@[j].package@),
                None => forall|j: int| 0 <= j < self.pending_builds@.len()
                    ==> !state.deps_met(#[trigger] self.pending_builds@[j].package@),
            },
    {
        let n = self.pending_builds.len();
        let mut i: usize = 0;
        while i < n
            invariant
                i <= n,
                n == self.pending_builds@.len(),
                state.wf(),
                forall|j: int| 0 <= j < i
                    ==> !state.deps_met(#[trigger] self.pending_builds@[j].package@),
            decreases n - i,
        {
            if state.are_dependencies_met(&self.pending_builds[i].package) {
                return Some(i);
            }
            i += 1;
        }
        None
    }

    /// Takes the queued request at `index` out of the queue.
    pub fn take_request(&mut self, index: usize) -> (r: BuildRequest)
        requires
            old(self).wf(),
            index < old(self).pending_builds@.len(),
        ensures
            final(self).wf(),
            r == old(self).pending_builds@[index as int],
            final(self).pending_builds@ == old(self).pending_builds@.remove(index as int),
            final(self).active_containers == old(self).active_containers,
            final(self).max_builders == old(self).max_builders,
    {
        self.pending_builds.remove(index)
    }

    /// Records the container that now builds `package`. The cap admits it;
    /// a stale entry for the same package is replaced, as a map insert would.
    pub fn record_container(&mut self, package: String, container_id: String)
        requires
            old(self).wf(),
            old(self).active_containers@.len() < old(self).max_builders,
        ensures
            final(self).wf(),
            final(self).active_has(package@),
            final(self).id_of(package@) == container_id@,
            forall|n: Seq<char>| n != package@
                ==> final(self).active_has(n) == old(self).active_has(n),
            forall|n: Seq<char>| n != package@ && old(self).active_has(n)
                ==> final(self).id_of(n) == old(self).id_of(n),
            final(self).active_containers@.len() <= old(self).active_containers@.len() + 1,
            final(self).pending_builds == old(self).pending_builds,
            final(self).max_builders == old(self).max_builders,
    {
        let ghost pre = *self;
        let n = self.active_containers.len();
        let mut i: usize = 0;
        while i < n
            invariant
                i <= n,
                *self == pre,
                pre == *old(self),
                pre.wf(),
                n == self.active_containers@.len(),
                forall|j: int| 0 <= j < i ==> pre.active_containers@[j].0@ != package@,
            decreases n - i,
        {
            if string_eq(&self.active_containers[i].0, &package) {
                self.active_containers[i] = (package, container_id);
                proof {
                    assert(self.active_containers@ =~= pre.active_containers@.update(
                        i as int,
                        self.active_containers@[i as int],
                    ));
                    assert forall|m: int, j: int| 0 <= m < j < self.active_containers@.len()
                        implies self.active_containers@[m].0@
                        != self.active_containers@[j].0@ by {
                        assert(pre.active_containers@[m].0@ != pre.active_containers@[j].0@);
                    }
                    self.lemma_active_unique(i as int, self.active_containers@[i as int].0@);
                    assert forall|nm: Seq<char>| nm != self.active_containers@[i as int].0@
                        implies (self.active_has(nm) == pre.active_has(nm)) by {
                        if pre.active_has(nm) {
                            let k = pre.active_index(nm);
                            assert(self.active_containers@[k].0@ == nm);
                        }
                        if self.active_has(nm) {
                            let k = self.active_index(nm);
                            assert(pre.active_containers@[k].0@ == nm);
                        }
                    }
                    assert forall|nm: Seq<char>| nm != self.active_containers@[i as int].0@
                        && pre.active_has(nm) implies self.id_of(nm) == pre.id_of(nm) by {
                        let k = pre.active_index(nm);
                        assert(self.active_containers@[k].0@ == nm);
                        self.lemma_active_unique(k, nm);
                        pre.lemma_active_unique(k, nm);
                    }
                }
                return ;
            }
            i += 1;
        }
        let ghost oldlen = self.active_containers@.len() as int;
        self.active_containers.push((package, container_id));
        proof {
            assert forall|m: int, j: int| 0 <= m < j < self.active_containers@.len()
                implies self.active_containers@[m].0@ != self.active_containers@[j].0@ by {
                if j < oldlen {
                    assert(pre.active_containers@[m].0@ != pre.active_containers@[j].0@);
                } else {
                    assert(pre.active_containers@[m].0@
                        != self.active_containers@[j].0@);
                }
            }
            self.lemma_active_unique(oldlen, self.active_containers@[oldlen].0@);
            assert forall|nm: Seq<char>| nm != self.active_containers@[oldlen].0@
                implies (self.active_has(nm) == pre.active_has(nm)) by {
                if pre.active_has(nm) {
                    let k = pre.active_index(nm);
                    assert(self.active_containers@[k].0@ == nm);
                }
                if self.active_has(nm) {
                    let k = self.active_index(nm);
                    if k < oldlen {
                        assert(pre.active_containers@[k].0@ == nm);
                    }
                }
            }
            assert forall|nm: Seq<char>| nm != self.active_containers@[oldlen].0@
                && pre.active_has(nm) implies self.id_of(nm) == pre.id_of(nm) by {
                let k = pre.active_index(nm);
                assert(self.active_containers@[k].0@ == nm);
                self.lemma_active_unique(k, nm);
                pre.lemma_active_unique(k, nm);
            }
        }
    }

    /// Forgets the container of `package` (it exited or was stopped) and
    /// returns its ID.
    pub fn finish_container(&mut self, package: &String) -> (r: Option<String>)
        requires
            old(self).wf(),
        ensures
            final(self).wf(),
            r is Some <==> old(self).active_has(package@),
            old(self).active_has(package@) ==> r->0@ == old(self).id_of(package@),
            forall|n: Seq<char>| final(self).active_has(n)
                == (old(self).active_has(n) && n != package@),
            forall|n: Seq<char>| final(self).active_has(n)
                ==> final(self).id_of(n) == old(self).id_of(n),
            final(self).pending_builds == old(self).pending_builds,
            final(self).max_builders == old(self).max_builders,
            final(self).active_containers@.len() <= old(self).active_containers@.len(),
    {
        let ghost pre = *self;
        let n = self.active_containers.len();
        let mut i: usize = 0;
        while i < n
            invariant
                i <= n,
                *self == pre,
                pre == *old(self),
                pre.wf(),
                n == self.active_containers@.len(),
                forall|j: int| 0 <= j < i ==> pre.active_containers@[j].0@ != package@,
            decreases n - i,
        {
            if string_eq(&self.active_containers[i].0, package) {
                proof {
                    pre.lemma_active_unique(i as int, package@);
                }
                let entry = self.active_containers.remove(i);
                proof {
                    assert(self.active_containers@ == pre.active_containers@.remove(i as int));
                    assert forall|m: int, j: int| 0 <= m < j < self.active_containers@.len()
                        implies self.active_containers@[m].0@
                        != self.active_containers@[j].0@ by {
                        let m2: int = if m < i { m } else { m + 1 };
                        let j2: int = if j < i { j } else { j + 1 };
                        assert(self.active_containers@[m] == pre.active_containers@[m2]);
                        assert(self.active_containers@[j] == pre.active_containers@[j2]);
                    }
                    assert forall|nm: Seq<char>| self.active_has(nm)
                        implies (pre.active_has(nm) && nm != package@
                            && self.id_of(nm) == pre.id_of(nm)) by {
                        let k = self.active_index(nm);
                        assert(self.active_containers@[k].0@ == nm);
                        let k2: int = if k < i { k } else { k + 1 };
                        assert(self.active_containers@[k] == pre.active_containers@[k2]);
                        assert(k2 != i);
                        assert(pre.active_containers@[k2].0@
                            != pre.active_containers@[i as int].0@);
                        pre.lemma_active_unique(k2, nm);
                        self.lemma_active_unique(k, nm);
                    }
                    assert forall|nm: Seq<char>| pre.active_has(nm) && nm != package@
                        implies self.active_has(nm) by {
                        let k = pre.active_index(nm);
                        assert(pre.active_containers@[k].0@ == nm);
                        assert(k != i);
                        let k2: int = if k < i { k } else { k - 1 };
                        assert(self.active_containers@[k2] == pre.active_containers@[k]);
                    }
                }
                return Some(entry.1);
            }
            i += 1;
        }
        proof {
            assert forall|nm: Seq<char>| self.active_has(nm) implies nm != package@ by {
                let k = self.active_index(nm);
                assert(pre.active_containers@[k].0@ != package@);
            }
        }
        None
    }

    /// Books a remove request: drops, for each named package, its first
    /// queued build, and forgets its active container. Returns the
    /// containers to stop, one per named package that had one.
    pub fn on_remove_packages(&mut self, packages: &Vec<String>) -> (stopped: Vec<
        (String, String),
    >)
        requires
            old(self).wf(),
        ensures
            final(self).wf(),
            final(self).pending_builds@ == remove_queued(
                old(self).pending_builds@,
                packages.deep_view(),
            ),
            forall|n: Seq<char>| final(self).active_has(n)
                ==> old(self).active_has(n) && final(self).id_of(n) == old(self).id_of(n),
            forall|n: Seq<char>| old(self).active_has(n)
                && !packages.deep_view().contains(n) ==> final(self).active_has(n),
            forall|k: int| 0 <= k < stopped@.len()
                ==> old(self).active_has((#[trigger] stopped@[k]).0@)
                    && stopped@[k].1@ == old(self).id_of(stopped@[k].0@),
            final(self).max_builders == old(self).max_builders,
            final(self).active_containers@.len() <= old(self).active_containers@.len(),
    {
        let ghost pre = *self;
        let mut stopped: Vec<(String, String)> = Vec::new();
        let n = packages.len();
        proof {
            assert(packages.deep_view().skip(0) =~= packages.deep_view());
        }
        let mut i: usize = 0;
        while i < n
            invariant
                i <= n,
                n == packages@.len(),
                self.wf(),
                pre == *old(self),
                pre.wf(),
                self.max_builders == pre.max_builders,
                self.active_containers@.len() <= pre.active_containers@.len(),
                remove_queued(pre.pending_builds@, packages.deep_view()) == remove_queued(
                    self.pending_builds@,
                    packages.deep_view().skip(i as int),
                ),
                forall|nm: Seq<char>| self.active_has(nm)
                    ==> pre.active_has(nm) && self.id_of(nm) == pre.id_of(nm),
                forall|nm: Seq<char>| pre.active_has(nm)
                    && !packages.deep_view().contains(nm) ==> self.active_has(nm),
                forall|k: int| 0 <= k < stopped@.len()
                    ==> pre.active_has((#[trigger] stopped@[k]).0@)
                        && stopped@[k].1@ == pre.id_of(stopped@[k].0@),
            decreases n - i,
        {
            proof {
                let names = packages.deep_view();
                assert(names.skip(i as int)[0] == names[i as int]);
                assert(names.skip(i as int).drop_first() =~= names.skip(i + 1));
                assert(names[i as int] == packages@[i as int]@);
            }
            remove_first_request(&mut self.pending_builds, &packages[i]);
            let ghost before = *self;
            let removed = self.finish_container(&packages[i]);
            proof {
                assert(self.pending_builds == before.pending_builds);
            }
            match removed {
                Some(id) => {
                    stopped.push((packages[i].clone(), id));
                    proof {
                        assert(stopped@.last().0@ == packages@[i as int]@);
                        assert(before.active_has(packages@[i as int]@));
                    }
                },
                None => {},
            }
            proof {
                assert forall|nm: Seq<char>| pre.active_has(nm)
                    && !packages.deep_view().contains(nm) implies self.active_has(nm) by {
                    assert(packages.deep_view()[i as int] == packages@[i as int]@);
                }
            }
            i += 1;
        }
        proof {
            assert(packages.deep_view().skip(n as int).len() == 0);
        }
        stopped
    }
}

/// At-most-N concurrent builds: a well-formed orchestrator never records
/// more active containers than its configured cap, and every operation above
/// keeps it well-formed.
pub proof fn lemma_active_containers_bounded(o: Orchestrator)
    requires
        o.wf(),
    ensures
        o.active_containers@.len() <= o.max_builders,
{
}

/// Removes the first queued request for `n`, if any.
fn remove_first_request(reqs: &mut Vec<BuildRequest>, n: &String)
    ensures
        final(reqs)@ == remove_first_req(old(reqs)@, n@),
{
    let ghost pre = reqs@;
    let len = reqs.len();
    proof {
        assert(pre.skip(0) =~= pre);
        assert(pre.take(0) + remove_first_req(pre, n@) =~= remove_first_req(pre, n@));
    }
    let mut j: usize = 0;
    while j < len
        invariant
            j <= len,
            len == reqs@.len(),
            reqs@ == pre,
            pre == old(reqs)@,
            remove_first_req(pre, n@) == pre.take(j as int) + remove_first_req(
                pre.skip(j as int),
                n@,
            ),
            forall|m: int| 0 <= m < j ==> pre[m].package@ != n@,
        decreases len - j,
    {
        proof {
            let tail = pre.skip(j as int);
            assert(tail[0] == pre[j as int]);
            assert(tail.drop_first() =~= pre.skip(j + 1));
        }
        if string_eq(&reqs[j].package, n) {
            reqs.remove(j);
            proof {
                assert(remove_first_req(pre.skip(j as int), n@) == pre.skip(j + 1));
                assert(reqs@ =~= pre.take(j as int) + pre.skip(j + 1));
            }
            return ;
        }
        proof {
            assert(pre.take(j + 1) =~= pre.take(j as int) + seq![pre[j as int]]);
            assert(pre.take(j as int) + (seq![pre[j as int]] + remove_first_req(
                pre.skip(j + 1),
                n@,
            )) =~= pre.take(j + 1) + remove_first_req(pre.skip(j + 1), n@));
        }
        j += 1;
    }
    proof {
        assert(pre.skip(len as int).len() == 0);
        assert(remove_first_req(pre.skip(len as int), n@) =~= pre.skip(len as int));
        assert(pre.take(len as int) + pre.skip(len as int) =~= pre);
    }
}

/// The short form of a container ID: its first twelve characters, which the
/// worker presents as its hostname.
pub fn short_id(id: &str) -> (r: String)
    requires
        id@.len() >= 12,
    ensures
        r@ == id@.subrange(0, 12),
{
    id.substring_char(0, 12).to_owned()
}

/// The environment a build container receives.
pub open spec fn container_env_spec(
    package: Seq<char>,
    url: Seq<char>,
    repo: Seq<char>,
    port: int,
) -> Seq<Seq<char>> {
    seq![
        "PACKAGE="@ + package,
        "URL="@ + url,
        "REPO="@ + repo,
        "PORT="@ + nat_to_str(port),
    ]
}

/// Builds the four environment entries of a build container.
pub fn container_env(package: &String, url: &String, repo: &String, port: u64) -> (r: Vec<
    String,
>)
    ensures
        r.deep_view() == container_env_spec(package@, url@, repo@, port as int),
{
    let mut r: Vec<String> = Vec::new();
    r.push(String::from_str("PACKAGE=").concat(package.as_str()));
    r.push(String::from_str("URL=").concat(url.as_str()));
    r.push(String::from_str("REPO=").concat(repo.as_str()));
    let digits = u64_to_string(port);
    r.push(String::from_str("PORT=").concat(chars_to_string(&digits).as_str()));
    proof {
        assert(r.deep_view() =~= container_env_spec(package@, url@, repo@, port as int));
    }
    r
}

/// Which stream a log entry came from.
pub enum LogKind {
    Out,
    ErrOut,
    Input,
    Console,
}

pub open spec fn log_prefix(k: LogKind) -> Seq<char> {
    match k {
        LogKind::Out => "OUT"@,
        LogKind::ErrOut => "ERR"@,
        LogKind::Input => "IN"@,
        LogKind::Console => "CON"@,
    }
}

/// One formatted log line: the stream tag, a separator, and the message with
/// a trailing newline stripped.
pub open spec fn log_line(k: LogKind, m: Seq<char>) -> Seq<char> {
    log_prefix(k) + " - "@ + (if m.len() > 0 && m.last() == '\n' {
        m.drop_last()
    } else {
        m
    })
}

pub open spec fn log_lines(entries: Seq<(LogKind, String)>) -> Seq<Seq<char>>
    decreases entries.len(),
{
    if entries.len() == 0 {
        Seq::empty()
    } else {
        log_lines(entries.drop_last()).push(log_line(entries.last().0, entries.last().1@))
    }
}

/// Formats captured container output for the warning log: one line per
/// entry, joined with newlines.
pub fn format_log_entries(entries: &Vec<(LogKind, String)>) -> (r: String)
    ensures
        r@ == joined_with(log_lines(entries@), '\n'),
{
    let mut r = String::new();
    let n = entries.len();
    let mut i: usize = 0;
    while i < n
        invariant
            i <= n,
            n == entries@.len(),
            r@ =~= joined_with(log_lines(entries@.take(i as int)), '\n'),
        decreases n - i,
    {
        proof {
            assert(entries@.take(i + 1).drop_last() =~= entries@.take(i as int));
            assert(entries@.take(i + 1).last() == entries@[i as int]);
            crate::query::lemma_joined_push_pub(
                log_lines(entries@.take(i as int)),
                log_line(entries@[i as int].0, entries@[i as int].1@),
                '\n',
            );
            assert(log_lines(entries@.take(i + 1)) =~= log_lines(entries@.take(i as int)).push(
                log_line(entries@[i as int].0, entries@[i as int].1@),
            ));
        }
        if i > 0 {
            push_newline(&mut r);
        }
        let tag: &str = match &entries[i].0 {
            LogKind::Out => "OUT",
            LogKind::ErrOut => "ERR",
            LogKind::Input => "IN",
            LogKind::Console => "CON",
        };
        r.append(tag);
        r.append(" - ");
        let msg = &entries[i].1;
        let chars = crate::strutil::str_to_chars(msg.as_str());
        let mut stripped = chars;
        let sl = stripped.len();
        if sl > 0 && stripped[sl - 1] == '\n' {
            stripped.pop();
            proof {
                assert(stripped@ =~= msg@.drop_last());
            }
        }
        r.append(chars_to_string(&stripped).as_str());
        proof {
            assert(r@ =~= joined_with(log_lines(entries@.take(i + 1)), '\n'));
        }
        i += 1;
    }
    proof {
        assert(entries@.take(n as int) =~= entries@);
    }
    r
}

fn push_newline(s: &mut String)
    ensures
        final(s)@ == old(s)@.push('\n'),
{
    crate::strutil::push_char(s, '\n');
}

} // verus!
