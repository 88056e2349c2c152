//! The scheduler's decisions: when an update check or a retry pass is due,
//! which packages to rebuild after a metadata sweep, the retry accounting,
//! and the state transactions behind the add / remove messages.

use vstd::prelude::*;
use crate::query::PackageData;
use crate::state::{contains_str, State};

verus! {

/// Seconds to wait before retrying after a failure: failed update checks and
/// failed builds both come back after this long.
pub const RETRY_TIME: i64 = 300;

/// What the scheduler carries across loop iterations.
pub struct Scheduler {
    /// Earliest time of the next metadata sweep, unix seconds.
    pub next_update_check: i64,
    /// Earliest time of the next retry pass, unix seconds.
    pub next_retry_check: i64,
    /// Failure counts of the current update cycle, one entry per package.
    pub retries: Vec<(String, u8)>,
}

impl Scheduler {
    /// Retry entries carry unique names.
    pub open spec fn wf(self) -> bool {
        forall|i: int, j: int|
            0 <= i < j < self.retries@.len() ==> self.retries@[i].0@ != self.retries@[j].0@
    }

    pub open spec fn has_retry(self, n: Seq<char>) -> bool {
        exists|i: int| 0 <= i < self.retries@.len() && self.retries@[i].0@ == n
    }

    pub open spec fn retry_index(self, n: Seq<char>) -> int {
        choose|i: int| 0 <= i < self.retries@.len() && self.retries@[i].0@ == n
    }

    /// The recorded failure count of `n`.
    pub open spec fn retry_count(self, n: Seq<char>) -> int {
        self.retries@[self.retry_index(n)].1 as int
    }

    proof fn lemma_retry_unique(self, i: int, n: Seq<char>)
        requires
            self.wf(),
            0 <= i < self.retries@.len(),
            self.retries@[i].0@ == n,
        ensures
            self.has_retry(n),
            self.retry_index(n) == i,
    {
        let k = self.retry_index(n);
        if k != i {
            if k < i {
                assert(self.retries@[k].0@ != self.retries@[i].0@);
            } else {
                assert(self.retries@[i].0@ != self.retries@[k].0@);
            }
        }
    }

    /// A fresh scheduler: both checks due immediately, no failures recorded.
    pub fn new() -> (r: Scheduler)
        ensures
            r.wf(),
            r.next_update_check == 0,
            r.next_retry_check == 0,
            forall|n: Seq<char>| !r.has_retry(n),
    {
        Scheduler { next_update_check: 0, next_retry_check: 0, retries: Vec::new() }
    }

    /// Whether a metadata sweep is due at time `now`.
    pub fn update_check_due(&self, now: i64) -> (r: bool)
        ensures
            r == (now >= self.next_update_check),
    {
        now >= self.next_update_check
    }

    /// Whether a retry pass is due at time `now`.
    pub fn retry_check_due(&self, now: i64) -> (r: bool)
        ensures
            r == (now >= self.next_retry_check),
    {
        now >= self.next_retry_check
    }

    /// Books the outcome of a metadata sweep: success schedules the next one
    /// a full interval out and opens a new update cycle (clearing the failure
    /// counts); failure retries sooner and keeps the counts.
    pub fn record_update_result(&mut self, now: i64, success: bool, interval: i64)
        requires
            old(self).wf(),
            0 <= interval,
            now <= i64::MAX - interval,
            now <= i64::MAX - RETRY_TIME,
        ensures
            final(self).wf(),
            success ==> final(self).next_update_check == now + interval,
            success ==> forall|n: Seq<char>| !final(self).has_retry(n),
            !success ==> final(self).next_update_check == now + RETRY_TIME,
            !success ==> final(self).retries == old(self).retries,
            final(self).next_retry_check == old(self).next_retry_check,
    {
        if success {
            self.next_update_check = now + interval;
            self.retries.clear();
        } else {
            self.next_update_check = now + RETRY_TIME;
        }
    }

    /// One retry pass at time `now`: returns the packages to re-emit — those
    /// whose failure count is still below `max_retries` — and waits another
    /// `RETRY_TIME` seconds before the next pass. The counts themselves only
    /// move on build outcomes.
    pub fn retry_pass(&mut self, now: i64, max_retries: u8) -> (r: Vec<String>)
        requires
            old(self).wf(),
            now <= i64::MAX - RETRY_TIME,
        ensures
            final(self).wf(),
            final(self).retries == old(self).retries,
            final(self).next_update_check == old(self).next_update_check,
            final(self).next_retry_check == now + RETRY_TIME,
            forall|k: int| 0 <= k < r@.len() ==> old(self).has_retry((#[trigger] r@[k])@)
                && old(self).retry_count(r@[k]@) < max_retries,
            forall|n: Seq<char>| old(self).has_retry(n) && old(self).retry_count(n)
                < max_retries ==> contains_str(r.deep_view(), n),
    {
        let mut r: Vec<String> = Vec::new();
        let n = self.retries.len();
        let mut i: usize = 0;
        while i < n
            invariant
                i <= n,
                n == self.retries@.len(),
                self.wf(),
                forall|k: int| 0 <= k < r@.len() ==> self.has_retry((#[trigger] r@[k])@)
                    && self.retry_count(r@[k]@) < max_retries,
                forall|j: int| 0 <= j < i && self.retries@[j].1 < max_retries
                    ==> contains_str(r.deep_view(), (#[trigger] self.retries@[j]).0@),
            decreases n - i,
        {
            let ghost oldr = r.deep_view();
            if self.retries[i].1 < max_retries {
                proof {
                    self.lemma_retry_unique(i as int, self.retries@[i as int].0@);
                }
                r.push(self.retries[i].0.clone());
                proof {
                    assert(r.deep_view()[r@.len() - 1] == self.retries@[i as int].0@);
                }
            }
            proof {
                assert forall|j: int| 0 <= j < i + 1 && self.retries@[j].1 < max_retries
                    implies contains_str(r.deep_view(), (#[trigger] self.retries@[j]).0@) by {
                    if j < i {
                        let k = choose|k: int| 0 <= k < oldr.len()
                            && oldr[k] == self.retries@[j].0@;
                        assert(r.deep_view()[k] == oldr[k]);
                    } else {
                        assert(r.deep_view()[r@.len() - 1] == self.retries@[i as int].0@);
                    }
                }
            }
            i += 1;
        }
        self.next_retry_check = now + RETRY_TIME;
        proof {
            assert forall|nm: Seq<char>| self.has_retry(nm) && self.retry_count(nm)
                < max_retries implies contains_str(r.deep_view(), nm) by {
                let j = self.retry_index(nm);
                assert(self.retries@[j].0@ == nm);
                assert(self.retries@[j].1 < max_retries);
            }
        }
        r
    }

    /// Books a successful build: the package's failure count is cleared.
    pub fn handle_build_success(&mut self, package: &String)
        requires
            old(self).wf(),
        ensures
            final(self).wf(),
            forall|n: Seq<char>| final(self).has_retry(n)
                == (old(self).has_retry(n) && n != package@),
            forall|n: Seq<char>| final(self).has_retry(n)
                ==> final(self).retry_count(n) == old(self).retry_count(n),
            final(self).next_update_check == old(self).next_update_check,
            final(self).next_retry_check == old(self).next_retry_check,
    {
        let ghost pre = *self;
        let n = self.retries.len();
        let mut i: usize = 0;
        while i < n
            invariant
                i <= n,
                *self == pre,
                pre == *old(self),
                pre.wf(),
                n == self.retries@.len(),
                forall|j: int| 0 <= j < i ==> pre.retries@[j].0@ != package@,
            decreases n - i,
        {
            if crate::state::string_eq(&self.retries[i].0, package) {
                let ghost mid = *self;
                self.retries.remove(i);
                proof {
                    assert(self.retries@ == pre.retries@.remove(i as int));
                    assert forall|m: int, j: int| 0 <= m < j < self.retries@.len()
                        implies self.retries@[m].0@ != self.retries@[j].0@ by {
                        let m2: int = if m < i { m } else { m + 1 };
                        let j2: int = if j < i { j } else { j + 1 };
                        assert(self.retries@[m] == pre.retries@[m2]);
                        assert(self.retries@[j] == pre.retries@[j2]);
                    }
                    assert(pre.retries@[i as int].0@ == package@);
                    assert forall|nm: Seq<char>| self.has_retry(nm)
                        implies (pre.has_retry(nm) && nm != package@
                            && self.retry_count(nm) == pre.retry_count(nm)) by {
                        let k = self.retry_index(nm);
                        assert(self.retries@[k].0@ == nm);
                        let k2: int = if k < i { k } else { k + 1 };
                        assert(self.retries@[k] == pre.retries@[k2]);
                        assert(k2 != i);
                        assert(pre.retries@[k2].0@ != pre.retries@[i as int].0@);
                        pre.lemma_retry_unique(k2, nm);
                        self.lemma_retry_unique(k, nm);
                    }
                    assert forall|nm: Seq<char>| pre.has_retry(nm) && nm != package@
                        implies self.has_retry(nm) by {
                        let k = pre.retry_index(nm);
                        assert(pre.retries@[k].0@ == nm);
                        assert(k != i);
                        let k2: int = if k < i { k } else { k - 1 };
                        assert(self.retries@[k2] == pre.retries@[k]);
                    }
                }
                return ;
            }
            i += 1;
        }
        proof {
            assert forall|nm: Seq<char>| self.has_retry(nm) implies nm != package@ by {
                let k = self.retry_index(nm);
                assert(pre.retries@[k].0@ != package@);
            }
        }
    }

    /// Books a failed build: the package's failure count rises by one (a
    /// first failure starts at one). The count never moves past the highest
    /// value its cell can hold.
    pub fn handle_build_failure(&mut self, package: String)
        requires
            old(self).wf(),
        ensures
            final(self).wf(),
            forall|n: Seq<char>| final(self).has_retry(n)
                == (old(self).has_retry(n) || n == package@),
            old(self).has_retry(package@) ==> final(self).retry_count(package@)
                == if old(self).retry_count(package@) < 255 {
                    old(self).retry_count(package@) + 1
                } else {
                    old(self).retry_count(package@)
                },
            !old(self).has_retry(package@) ==> final(self).retry_count(package@) == 1,
            forall|n: Seq<char>| n != package@ && old(self).has_retry(n)
                ==> final(self).retry_count(n) == old(self).retry_count(n),
            final(self).next_update_check == old(self).next_update_check,
            final(self).next_retry_check == old(self).next_retry_check,
    {
        let ghost pre = *self;
        let n = self.retries.len();
        let mut i: usize = 0;
        while i < n
            invariant
                i <= n,
                *self == pre,
                pre == *old(self),
                pre.wf(),
                n == self.retries@.len(),
                forall|j: int| 0 <= j < i ==> pre.retries@[j].0@ != package@,
            decreases n - i,
        {
            if crate::state::string_eq(&self.retries[i].0, &package) {
                let c = self.retries[i].1;
                let c2: u8 = if c < 255 {
                    c + 1
                } else {
                    c
                };
                self.retries[i].1 = c2;
                proof {
                    assert(self.retries@ =~= pre.retries@.update(
                        i as int,
                        self.retries@[i as int],
                    ));
                    assert(self.retries@[i as int].0@ == package@);
                    assert forall|m: int, j: int| 0 <= m < j < self.retries@.len()
                        implies self.retries@[m].0@ != self.retries@[j].0@ by {
                        assert(pre.retries@[m].0@ != pre.retries@[j].0@);
                    }
                    self.lemma_retry_unique(i as int, package@);
                    pre.lemma_retry_unique(i as int, package@);
                    assert forall|nm: Seq<char>| self.has_retry(nm)
                        == (pre.has_retry(nm) || nm == package@) by {
                        if pre.has_retry(nm) {
                            let k = pre.retry_index(nm);
                            assert(self.retries@[k].0@ == nm);
                        }
                        if self.has_retry(nm) {
                            let k = self.retry_index(nm);
                            assert(pre.retries@[k].0@ == nm);
                        }
                    }
                    assert forall|nm: Seq<char>| nm != package@ && pre.has_retry(nm)
                        implies self.retry_count(nm) == pre.retry_count(nm) by {
                        let k = pre.retry_index(nm);
                        assert(self.retries@[k].0@ == nm);
                        self.lemma_retry_unique(k, nm);
                        pre.lemma_retry_unique(k, nm);
                    }
                }
                return ;
            }
            i += 1;
        }
        let ghost oldlen = self.retries@.len() as int;
        self.retries.push((package, 1));
        proof {
            assert forall|m: int, j: int| 0 <= m < j < self.retries@.len()
                implies self.retries@[m].0@ != self.retries@[j].0@ by {
                if j < oldlen {
                    assert(pre.retries@[m].0@ != pre.retries@[j].0@);
                } else {
                    assert(pre.retries@[m].0@ != package@);
                }
            }
            self.lemma_retry_unique(oldlen, package@);
            assert forall|nm: Seq<char>| self.has_retry(nm)
                == (pre.has_retry(nm) || nm == package@) by {
                if pre.has_retry(nm) {
                    let k = pre.retry_index(nm);
                    assert(self.retries@[k].0@ == nm);
                }
                if self.has_retry(nm) {
                    let k = self.retry_index(nm);
                    if k < oldlen {
                        assert(pre.retries@[k].0@ == nm);
                    }
                }
            }
            assert forall|nm: Seq<char>| nm != package@ && pre.has_retry(nm)
                implies self.retry_count(nm) == pre.retry_count(nm) by {
                let k = pre.retry_index(nm);
                assert(self.retries@[k].0@ == nm);
                self.lemma_retry_unique(k, nm);
                pre.lemma_retry_unique(k, nm);
            }
        }
    }
}

/// The first recorded build time for `n`, scanning from the front.
pub open spec fn lookup_time(s: Seq<(String, i64)>, n: Seq<char>) -> Option<i64>
    decreases s.len(),
{
    if s.len() == 0 {
        None
    } else if s[0].0@ == n {
        Some(s[0].1)
    } else {
        lookup_time(s.drop_first(), n)
    }
}

/// Looks `n` up in a `(name, time)` list, first match.
pub fn lookup_time_exec(s: &Vec<(String, i64)>, n: &String) -> (r: Option<i64>)
    ensures
        r == lookup_time(s@, n@),
{
    let len = s.len();
    proof {
        assert(s@.skip(0) =~= s@);
    }
    let mut i: usize = 0;
    while i < len
        invariant
            i <= len,
            len == s@.len(),
            lookup_time(s@, n@) == lookup_time(s@.skip(i as int), n@),
        decreases len - i,
    {
        proof {
            let tail = s@.skip(i as int);
            assert(tail[0] == s@[i as int]);
            assert(tail.drop_first() =~= s@.skip(i + 1));
        }
        if crate::state::string_eq(&s[i].0, n) {
            return Some(s[i].1);
        }
        i += 1;
    }
    proof {
        assert(s@.skip(len as int).len() == 0);
    }
    None
}

/// The packages that a sweep found stale: those with a recorded build whose
/// upstream changed after it. Order follows the build-time list.
pub open spec fn stale_names(bts: Seq<(String, i64)>, lms: Seq<(String, i64)>) -> Seq<Seq<char>>
    decreases bts.len(),
{
    if bts.len() == 0 {
        Seq::empty()
    } else {
        let rest = stale_names(bts.drop_last(), lms);
        match lookup_time(lms, bts.last().0@) {
            Some(t) => if t > bts.last().1 {
                rest.push(bts.last().0@)
            } else {
                rest
            },
            None => rest,
        }
    }
}

/// The tracked_names packages with no recorded build, in tracking order.
pub open spec fn never_built(tracked_names: Seq<String>, bts: Seq<(String, i64)>) -> Seq<Seq<char>>
    decreases tracked_names.len(),
{
    if tracked_names.len() == 0 {
        Seq::empty()
    } else {
        let rest = never_built(tracked_names.drop_last(), bts);
        if lookup_time(bts, tracked_names.last()@) is None {
            rest.push(tracked_names.last()@)
        } else {
            rest
        }
    }
}

/// The registry sweep's build list: the stale packages first, then the
/// never-built ones, so that newly added packages yield to the update sweep
/// of existing ones.
pub fn select_aur_rebuilds(
    tracked_names: &Vec<String>,
    build_times: &Vec<(String, i64)>,
    last_modified: &Vec<(String, i64)>,
) -> (r: Vec<String>)
    ensures
        r.deep_view() == stale_names(build_times@, last_modified@)
            + never_built(tracked_names@, build_times@),
{
    let mut r: Vec<String> = Vec::new();
    let bn = build_times.len();
    let mut i: usize = 0;
    while i < bn
        invariant
            i <= bn,
            bn == build_times@.len(),
            r.deep_view() =~= stale_names(build_times@.take(i as int), last_modified@),
        decreases bn - i,
    {
        proof {
            assert(build_times@.take(i + 1).drop_last() =~= build_times@.take(i as int));
            assert(build_times@.take(i + 1).last() == build_times@[i as int]);
        }
        match lookup_time_exec(last_modified, &build_times[i].0) {
            Some(t) => {
                if t > build_times[i].1 {
                    r.push(build_times[i].0.clone());
                }
            },
            None => {},
        }
        proof {
            assert(r.deep_view() =~= stale_names(build_times@.take(i + 1), last_modified@));
        }
        i += 1;
    }
    proof {
        assert(build_times@.take(bn as int) =~= build_times@);
        assert(tracked_names@.take(0).len() == 0);
        assert(never_built(tracked_names@.take(0), build_times@) =~= Seq::<Seq<char>>::empty());
        assert(r.deep_view() =~= stale_names(build_times@, last_modified@) + never_built(
            tracked_names@.take(0),
            build_times@,
        ));
    }
    let tn = tracked_names.len();
    let mut j: usize = 0;
    while j < tn
        invariant
            j <= tn,
            tn == tracked_names@.len(),
            r.deep_view() =~= stale_names(build_times@, last_modified@) + never_built(
                tracked_names@.take(j as int),
                build_times@,
            ),
        decreases tn - j,
    {
        proof {
            assert(tracked_names@.take(j + 1).drop_last() =~= tracked_names@.take(j as int));
            assert(tracked_names@.take(j + 1).last() == tracked_names@[j as int]);
        }
        let ghost oldacc = r.deep_view();
        match lookup_time_exec(build_times, &tracked_names[j]) {
            Some(_t) => {},
            None => {
                r.push(tracked_names[j].clone());
                proof {
                    assert(r.deep_view() =~= oldacc.push(tracked_names@[j as int]@));
                    assert(oldacc.push(tracked_names@[j as int]@) =~= stale_names(
                        build_times@,
                        last_modified@,
                    ) + never_built(tracked_names@.take(j as int), build_times@).push(
                        tracked_names@[j as int]@,
                    ));
                }
            },
        }
        proof {
            assert(r.deep_view() =~= stale_names(build_times@, last_modified@) + never_built(
                tracked_names@.take(j + 1),
                build_times@,
            ));
        }
        j += 1;
    }
    proof {
        assert(tracked_names@.take(tn as int) =~= tracked_names@);
    }
    r
}

/// The rebuild test of one probed source-URL package.
pub fn needs_rebuild(build_time: i64, last_modified: i64) -> (r: bool)
    ensures
        r == (last_modified > build_time),
{
    last_modified > build_time
}

/// Rebuild monotonicity: a sweep emits a build for a package only when it
/// has no recorded build, or upstream changed after the recorded build. The
/// build-time list carries unique names, as the state hands it out.
pub proof fn lemma_rebuild_monotonic(
    tracked_names: Seq<String>,
    bts: Seq<(String, i64)>,
    lms: Seq<(String, i64)>,
    n: Seq<char>,
)
    requires
        forall|i: int, j: int| 0 <= i < j < bts.len() ==> bts[i].0@ != bts[j].0@,
    ensures
        stale_names(bts, lms).contains(n) ==> exists|bt: i64, t: i64|
            #![auto]
            lookup_time(bts, n) == Some(bt) && lookup_time(lms, n) == Some(t) && t > bt,
        never_built(tracked_names, bts).contains(n) ==> lookup_time(bts, n) is None,
{
    if stale_names(bts, lms).contains(n) {
        lemma_stale_names_sound(bts, lms, n);
    }
    if never_built(tracked_names, bts).contains(n) {
        lemma_never_built_sound(tracked_names, bts, n);
    }
}

/// A lookup that returns a value found its name in the list.
proof fn lemma_lookup_some_found(s: Seq<(String, i64)>, n: Seq<char>)
    requires
        lookup_time(s, n) is Some,
    ensures
        exists|i: int| 0 <= i < s.len() && (#[trigger] s[i]).0@ == n,
    decreases s.len(),
{
    if s[0].0@ == n {
        assert(s[0].0@ == n);
    } else {
        lemma_lookup_some_found(s.drop_first(), n);
        let i = choose|i: int| 0 <= i < s.drop_first().len()
            && (#[trigger] s.drop_first()[i]).0@ == n;
        assert(s[i + 1] == s.drop_first()[i]);
    }
}

/// A name found in a prefix keeps its lookup result in the full list.
proof fn lemma_lookup_prefix(bts: Seq<(String, i64)>, n: Seq<char>)
    requires
        bts.len() > 0,
        lookup_time(bts.drop_last(), n) is Some,
    ensures
        lookup_time(bts, n) == lookup_time(bts.drop_last(), n),
    decreases bts.len(),
{
    let head = bts.drop_last();
    if head[0].0@ == n {
        assert(bts[0] == head[0]);
    } else {
        assert(bts[0] == head[0]);
        assert(bts.drop_first().drop_last() =~= head.drop_first());
        lemma_lookup_prefix(bts.drop_first(), n);
    }
}

/// Extending a list by one entry changes a lookup only when the name was
/// absent before and the new entry carries it.
proof fn lemma_lookup_extend(bts: Seq<(String, i64)>, n: Seq<char>)
    requires
        bts.len() > 0,
    ensures
        lookup_time(bts.drop_last(), n) is Some ==> lookup_time(bts, n) == lookup_time(
            bts.drop_last(),
            n,
        ),
        lookup_time(bts.drop_last(), n) is None && bts.last().0@ == n ==> lookup_time(bts, n)
            == Some(bts.last().1),
        lookup_time(bts.drop_last(), n) is None && bts.last().0@ != n ==> lookup_time(
            bts,
            n,
        ) is None,
    decreases bts.len(),
{
    let head = bts.drop_last();
    if lookup_time(head, n) is Some {
        lemma_lookup_prefix(bts, n);
    } else {
        if bts.len() == 1 {
            assert(bts[0] == bts.last());
            assert(bts.drop_first().len() == 0);
            assert(lookup_time(bts.drop_first(), n) is None);
        } else {
            assert(bts[0] == head[0]);
            assert(head[0].0@ != n);
            assert(bts.drop_first().drop_last() =~= head.drop_first());
            assert(bts.drop_first().last() == bts.last());
            lemma_lookup_extend(bts.drop_first(), n);
        }
    }
}

proof fn lemma_stale_names_sound(bts: Seq<(String, i64)>, lms: Seq<(String, i64)>, n: Seq<char>)
    requires
        stale_names(bts, lms).contains(n),
        forall|i: int, j: int| 0 <= i < j < bts.len() ==> bts[i].0@ != bts[j].0@,
    ensures
        exists|bt: i64, t: i64|
            #![auto]
            lookup_time(bts, n) == Some(bt) && lookup_time(lms, n) == Some(t) && t > bt,
    decreases bts.len(),
{
    let s = stale_names(bts, lms);
    assert(bts.len() > 0);
    let rest = stale_names(bts.drop_last(), lms);
    if rest.contains(n) {
        assert(forall|i: int, j: int| 0 <= i < j < bts.drop_last().len()
            ==> bts.drop_last()[i].0@ != bts.drop_last()[j].0@);
        lemma_stale_names_sound(bts.drop_last(), lms, n);
        let (bt, t) = choose|bt: i64, t: i64|
            #![auto]
            lookup_time(bts.drop_last(), n) == Some(bt) && lookup_time(lms, n) == Some(t)
                && t > bt;
        lemma_lookup_prefix(bts, n);
        assert(lookup_time(bts, n) == Some(bt));
    } else {
        // The membership witness must be the pushed last name.
        assert(s == rest.push(bts.last().0@) && lookup_time(lms, bts.last().0@) is Some
            && lookup_time(lms, bts.last().0@)->0 > bts.last().1) by {
            if !(lookup_time(lms, bts.last().0@) is Some && lookup_time(
                lms,
                bts.last().0@,
            )->0 > bts.last().1) {
                assert(s == rest);
            }
        }
        let idx = choose|idx: int| 0 <= idx < s.len() && s[idx] == n;
        if idx < rest.len() {
            assert(rest[idx] == n);
            assert(false);
        }
        assert(n == bts.last().0@);
        // Unique names: n does not occur before the last entry.
        if lookup_time(bts.drop_last(), n) is Some {
            lemma_lookup_some_found(bts.drop_last(), n);
            let i = choose|i: int| 0 <= i < bts.drop_last().len()
                && (#[trigger] bts.drop_last()[i]).0@ == n;
            assert(bts[i].0@ == bts[bts.len() - 1].0@);
            assert(false);
        }
        lemma_lookup_extend(bts, n);
        assert(lookup_time(bts, n) == Some(bts.last().1));
        let t = lookup_time(lms, n)->0;
        assert(lookup_time(lms, n) == Some(t));
    }
}

proof fn lemma_never_built_sound(
    tracked_names: Seq<String>,
    bts: Seq<(String, i64)>,
    n: Seq<char>,
)
    requires
        never_built(tracked_names, bts).contains(n),
    ensures
        lookup_time(bts, n) is None,
    decreases tracked_names.len(),
{
    let s = never_built(tracked_names, bts);
    assert(tracked_names.len() > 0);
    let rest = never_built(tracked_names.drop_last(), bts);
    if rest.contains(n) {
        lemma_never_built_sound(tracked_names.drop_last(), bts, n);
    } else {
        assert(s == rest.push(tracked_names.last()@) && lookup_time(
            bts,
            tracked_names.last()@,
        ) is None) by {
            if !(lookup_time(bts, tracked_names.last()@) is None) {
                assert(s == rest);
            }
        }
        let idx = choose|idx: int| 0 <= idx < s.len() && s[idx] == n;
        if idx < rest.len() {
            assert(rest[idx] == n);
            assert(false);
        }
        assert(n == tracked_names.last()@);
    }
}

/// Retry bound: within one update cycle, under the premise that every
/// retried build fails (and its failure is booked) before the next retry
/// pass, a package is re-emitted fewer than `max` times. `counts` lists the
/// package's failure count at each successive retry emission: an emission
/// happens only below `max`, the count starts at one after the first failure,
/// and the premise makes it rise between emissions.
pub proof fn lemma_retry_bound(counts: Seq<int>, max: int)
    requires
        forall|i: int| 0 <= i < counts.len() ==> #[trigger] counts[i] < max,
        forall|i: int| 0 <= i < counts.len() - 1 ==> #[trigger] counts[i] < counts[i + 1],
        counts.len() > 0 ==> counts[0] >= 1,
    ensures
        counts.len() < max || counts.len() == 0,
{
    if counts.len() > 0 {
        lemma_counts_grow(counts, counts.len() - 1);
        assert(counts[counts.len() - 1] >= counts.len());
        assert(counts[counts.len() - 1] < max);
    }
}

proof fn lemma_counts_grow(counts: Seq<int>, i: int)
    requires
        0 <= i < counts.len(),
        forall|j: int| 0 <= j < counts.len() - 1 ==> #[trigger] counts[j] < counts[j + 1],
        counts[0] >= 1,
    ensures
        counts[i] >= i + 1,
    decreases i,
{
    if i > 0 {
        lemma_counts_grow(counts, i - 1);
        assert(counts[i - 1] < counts[i]);
    }
}

/// The names of a list, as a set of contents.
pub open spec fn names_set(v: Seq<String>) -> Set<Seq<char>> {
    Set::new(|n: Seq<char>| exists|i: int| 0 <= i < v.len() && (#[trigger] v[i])@ == n)
}

/// A successful lookup returns the list of some entry.
proof fn lemma_lookup_deps_found(s: Seq<(String, Vec<String>)>, n: Seq<char>)
    requires
        lookup_deps_spec(s, n) is Some,
    ensures
        exists|i: int| 0 <= i < s.len() && (#[trigger] s[i]).0@ == n
            && s[i].1.deep_view() == lookup_deps_spec(s, n)->0,
    decreases s.len(),
{
    if s[0].0@ == n {
        assert(s[0].0@ == n && s[0].1.deep_view() == lookup_deps_spec(s, n)->0);
    } else {
        lemma_lookup_deps_found(s.drop_first(), n);
        let i = choose|i: int| 0 <= i < s.drop_first().len()
            && (#[trigger] s.drop_first()[i]).0@ == n
            && s.drop_first()[i].1.deep_view() == lookup_deps_spec(s.drop_first(), n)->0;
        assert(s[i + 1] == s.drop_first()[i]);
    }
}

/// Every name in one entry's list occurs in the flattened union.
proof fn lemma_flatten_contains(s: Seq<(String, Vec<String>)>, i: int, k: int)
    requires
        0 <= i < s.len(),
        0 <= k < s[i].1@.len(),
    ensures
        names_set(flatten_deps(s)).contains(s[i].1@[k]@),
    decreases s.len(),
{
    let whole = flatten_deps(s);
    let head = flatten_deps(s.drop_last());
    if i < s.len() - 1 {
        assert(s.drop_last()[i] == s[i]);
        lemma_flatten_contains(s.drop_last(), i, k);
        let j = choose|j: int| 0 <= j < head.len() && (#[trigger] head[j])@ == s[i].1@[k]@;
        assert(whole[j] == head[j]);
        assert(whole[j]@ == s[i].1@[k]@);
    } else {
        assert(s.last() == s[i]);
        assert(whole[head.len() + k] == s[i].1@[k]);
    }
}

/// Tracking closure, up to names still in flight: every dependency name any
/// tracked package references is tracked, or stands in `pending`.
pub open spec fn closed_except(s: State, pending: Set<Seq<char>>) -> bool {
    forall|n: Seq<char>, k: int|
        s.contains_name(n) && 0 <= k < s.at(n).dependencies.len()
            ==> s.contains_name(#[trigger] s.at(n).dependencies[k]) || pending.contains(
            s.at(n).dependencies[k],
        )
}

/// Tracking closure over the add cascade (one round): handling an add
/// message inserts the requested names with their fetched dependency lists
/// and leaves the union of those lists pending for the next round. When the
/// state was closed up to the requested names and the rest of the in-flight
/// names, and the registry answered for every requested name, the new state
/// is closed up to the rest plus the newly emitted union. Once nothing is
/// pending, `closed_except(s, empty)` is tracking closure itself.
pub proof fn lemma_add_cascade_step(
    pre: State,
    post: State,
    packages: Seq<String>,
    package_deps: Seq<(String, Vec<String>)>,
    rest_pending: Set<Seq<char>>,
)
    requires
        closed_except(pre, rest_pending.union(names_set(packages))),
        forall|k: int| 0 <= k < packages.len()
            ==> lookup_deps_spec(package_deps, (#[trigger] packages[k])@) is Some,
        forall|n: Seq<char>| pre.contains_name(n) ==> post.contains_name(n) && post.at(n)
            == pre.at(n),
        forall|n: Seq<char>| post.contains_name(n) && !pre.contains_name(n)
            ==> lookup_deps_spec(package_deps, n) == Some(post.at(n).dependencies),
        forall|k: int| 0 <= k < packages.len()
            ==> post.contains_name((#[trigger] packages[k])@),
    ensures
        closed_except(post, rest_pending.union(names_set(flatten_deps(package_deps)))),
{
    let newpending = rest_pending.union(names_set(flatten_deps(package_deps)));
    assert forall|n: Seq<char>, k: int|
        post.contains_name(n) && 0 <= k < post.at(n).dependencies.len()
        implies post.contains_name(#[trigger] post.at(n).dependencies[k])
            || newpending.contains(post.at(n).dependencies[k]) by {
        let d = post.at(n).dependencies[k];
        if pre.contains_name(n) {
            assert(post.at(n) == pre.at(n));
            assert(pre.contains_name(pre.at(n).dependencies[k]) || rest_pending.union(
                names_set(packages),
            ).contains(pre.at(n).dependencies[k]));
            if pre.contains_name(d) {
                assert(post.contains_name(d));
            } else if names_set(packages).contains(d) {
                let i = choose|i: int| 0 <= i < packages.len()
                    && (#[trigger] packages[i])@ == d;
                assert(post.contains_name(packages[i]@));
            }
        } else {
            assert(lookup_deps_spec(package_deps, n) == Some(post.at(n).dependencies));
            lemma_lookup_deps_found(package_deps, n);
            let i = choose|i: int| 0 <= i < package_deps.len()
                && (#[trigger] package_deps[i]).0@ == n
                && package_deps[i].1.deep_view() == lookup_deps_spec(package_deps, n)->0;
            assert(package_deps[i].1.deep_view()[k] == d);
            assert(package_deps[i].1@[k]@ == d);
            lemma_flatten_contains(package_deps, i, k);
        }
    }
}

/// At the cascade's fixpoint nothing is pending, and closure-up-to-nothing
/// is the tracking-closure invariant itself.
pub proof fn lemma_cascade_settled(s: State)
    requires
        closed_except(s, Set::empty()),
    ensures
        s.closed(),
{
    assert forall|n: Seq<char>, k: int|
        s.contains_name(n) && 0 <= k < s.at(n).dependencies.len()
        implies s.contains_name(#[trigger] s.at(n).dependencies[k]) by {
        assert(!Set::<Seq<char>>::empty().contains(s.at(n).dependencies[k]));
    }
}

/// Two cascade rounds, settled: a user add whose emitted dependency union is
/// handled by one further round that emits nothing leaves the state closed —
/// the shape of adding a package with fresh dependencies that themselves
/// depend on nothing new.
pub proof fn lemma_add_cascade_two_rounds(
    s0: State,
    s1: State,
    s2: State,
    pkgs1: Seq<String>,
    deps1: Seq<(String, Vec<String>)>,
    pkgs2: Seq<String>,
    deps2: Seq<(String, Vec<String>)>,
)
    requires
        s0.closed(),
        forall|k: int| 0 <= k < pkgs1.len()
            ==> lookup_deps_spec(deps1, (#[trigger] pkgs1[k])@) is Some,
        forall|n: Seq<char>| s0.contains_name(n) ==> s1.contains_name(n) && s1.at(n)
            == s0.at(n),
        forall|n: Seq<char>| s1.contains_name(n) && !s0.contains_name(n)
            ==> lookup_deps_spec(deps1, n) == Some(s1.at(n).dependencies),
        forall|k: int| 0 <= k < pkgs1.len() ==> s1.contains_name((#[trigger] pkgs1[k])@),
        names_set(pkgs2) == names_set(flatten_deps(deps1)),
        forall|k: int| 0 <= k < pkgs2.len()
            ==> lookup_deps_spec(deps2, (#[trigger] pkgs2[k])@) is Some,
        forall|n: Seq<char>| s1.contains_name(n) ==> s2.contains_name(n) && s2.at(n)
            == s1.at(n),
        forall|n: Seq<char>| s2.contains_name(n) && !s1.contains_name(n)
            ==> lookup_deps_spec(deps2, n) == Some(s2.at(n).dependencies),
        forall|k: int| 0 <= k < pkgs2.len() ==> s2.contains_name((#[trigger] pkgs2[k])@),
        flatten_deps(deps2).len() == 0,
    ensures
        s2.closed(),
{
    let p1 = Set::<Seq<char>>::empty().union(names_set(pkgs1));
    assert(closed_except(s0, p1)) by {
        assert forall|n: Seq<char>, k: int|
            s0.contains_name(n) && 0 <= k < s0.at(n).dependencies.len()
            implies s0.contains_name(#[trigger] s0.at(n).dependencies[k]) || p1.contains(
                s0.at(n).dependencies[k],
            ) by {
            assert(s0.contains_name(s0.at(n).dependencies[k]));
        }
    }
    lemma_add_cascade_step(s0, s1, pkgs1, deps1, Set::empty());
    assert(Set::<Seq<char>>::empty().union(names_set(flatten_deps(deps1)))
        =~= Set::<Seq<char>>::empty().union(names_set(pkgs2)));
    lemma_add_cascade_step(s1, s2, pkgs2, deps2, Set::empty());
    assert(Set::<Seq<char>>::empty().union(names_set(flatten_deps(deps2)))
        =~= Set::<Seq<char>>::empty()) by {
        assert forall|n: Seq<char>|
            !names_set(flatten_deps(deps2)).contains(n) by {
            if names_set(flatten_deps(deps2)).contains(n) {
                let i = choose|i: int| 0 <= i < flatten_deps(deps2).len()
                    && (#[trigger] flatten_deps(deps2)[i])@ == n;
                assert(false);
            }
        }
    }
    lemma_cascade_settled(s2);
}

/// The settled add transaction: inserts every name of `packages` that is not
/// yet tracked_names and has a fetched dependency list, with that list. Returns the
/// inserted names (the packages to build) in order, and the union of all
/// fetched dependency lists (the names to add transitively).
pub fn apply_add_packages(
    state: &mut State,
    packages: &Vec<String>,
    package_deps: &Vec<(String, Vec<String>)>,
    is_dependency: bool,
) -> (r: (Vec<String>, Vec<String>))
    requires
        old(state).wf(),
        forall|i: int, j: int| 0 <= i < j < packages@.len()
            ==> packages@[i]@ != packages@[j]@,
    ensures
        final(state).wf(),
        forall|k: int| 0 <= k < r.0@.len() ==> {
            let p = (#[trigger] r.0@[k])@;
            contains_str(packages.deep_view(), p) && !old(state).contains_name(p)
                && final(state).contains_name(p)
        },
        forall|k: int| 0 <= k < packages@.len()
            && !old(state).contains_name((#[trigger] packages@[k])@)
            && lookup_deps_spec(package_deps@, packages@[k]@) is Some
            ==> contains_str(r.0.deep_view(), packages@[k]@),
        forall|n: Seq<char>| old(state).contains_name(n) ==> final(state).contains_name(n)
            && final(state).at(n) == old(state).at(n),
        forall|n: Seq<char>| final(state).contains_name(n) ==> old(state).contains_name(n)
            || contains_str(packages.deep_view(), n),
        forall|n: Seq<char>| final(state).contains_name(n) && !old(state).contains_name(n)
            ==> final(state).at(n).is_dependency == is_dependency
                && final(state).at(n).build is None && final(state).at(n).url is None
                && lookup_deps_spec(package_deps@, n) == Some(final(state).at(n).dependencies),
        r.1@ == flatten_deps(package_deps@),
{
    let mut to_build: Vec<String> = Vec::new();
    let n = packages.len();
    let mut i: usize = 0;
    while i < n
        invariant
            i <= n,
            n == packages@.len(),
            state.wf(),
            forall|a: int, b: int| 0 <= a < b < packages@.len()
                ==> packages@[a]@ != packages@[b]@,
            forall|k: int| 0 <= k < to_build@.len() ==> {
                let p = (#[trigger] to_build@[k])@;
                contains_str(packages.deep_view(), p) && !old(state).contains_name(p)
                    && state.contains_name(p)
            },
            forall|k: int| 0 <= k < i
                && !old(state).contains_name((#[trigger] packages@[k])@)
                && lookup_deps_spec(package_deps@, packages@[k]@) is Some
                ==> contains_str(to_build.deep_view(), packages@[k]@),
            forall|nm: Seq<char>| old(state).contains_name(nm) ==> state.contains_name(nm)
                && state.at(nm) == old(state).at(nm),
            forall|nm: Seq<char>| state.contains_name(nm) ==> old(state).contains_name(nm)
                || contains_str(packages.deep_view(), nm),
            forall|nm: Seq<char>| state.contains_name(nm) && !old(state).contains_name(nm)
                ==> exists|j: int| 0 <= j < i && (#[trigger] packages@[j])@ == nm,
            forall|nm: Seq<char>| state.contains_name(nm) && !old(state).contains_name(nm)
                ==> state.at(nm).is_dependency == is_dependency
                    && state.at(nm).build is None && state.at(nm).url is None
                    && lookup_deps_spec(package_deps@, nm) == Some(state.at(nm).dependencies),
        decreases n - i,
    {
        let ghost oldtb = to_build.deep_view();
        let ghost pre_iter = *state;
        let tracked_already = state.is_package_tracked(&packages[i]);
        let ghost mid_tracked = pre_iter.contains_name(packages@[i as int]@);
        if !tracked_already {
            match lookup_deps(package_deps, &packages[i]) {
                Some(deps) => {
                    let ghost mid = *state;
                    state.track_package(packages[i].clone(), deps, is_dependency);
                    to_build.push(packages[i].clone());
                    proof {
                        assert(packages.deep_view()[i as int] == packages@[i as int]@);
                        assert(to_build@.last()@ == packages@[i as int]@);
                        assert(to_build.deep_view()[to_build@.len() - 1]
                            == packages@[i as int]@);
                        assert forall|nm: Seq<char>| state.contains_name(nm)
                            && !old(state).contains_name(nm)
                            implies exists|j: int| 0 <= j < i + 1
                                && (#[trigger] packages@[j])@ == nm by {
                            if nm != packages@[i as int]@ {
                                assert(pre_iter.contains_name(nm));
                                let j = choose|j: int| 0 <= j < i
                                    && (#[trigger] packages@[j])@ == nm;
                                assert(packages@[j]@ == nm);
                            } else {
                                assert(packages@[i as int]@ == nm);
                            }
                        }
                    }
                },
                None => {},
            }
        }
        proof {
            assert forall|k: int| 0 <= k < i + 1
                && !old(state).contains_name((#[trigger] packages@[k])@)
                && lookup_deps_spec(package_deps@, packages@[k]@) is Some
                implies contains_str(to_build.deep_view(), packages@[k]@) by {
                if k < i {
                    let m = choose|m: int| 0 <= m < oldtb.len()
                        && oldtb[m] == packages@[k]@;
                    assert(to_build.deep_view()[m] == packages@[k]@);
                } else {
                    if mid_tracked {
                        let j = choose|j: int| 0 <= j < i
                            && (#[trigger] packages@[j])@ == packages@[i as int]@;
                        assert(packages@[j]@ != packages@[i as int]@);
                        assert(false);
                    }
                }
            }
        }
        i += 1;
    }
    let deps_union = flatten_deps_exec(package_deps);
    (to_build, deps_union)
}

/// Every fetched dependency list, concatenated in order.
pub open spec fn flatten_deps(package_deps: Seq<(String, Vec<String>)>) -> Seq<String>
    decreases package_deps.len(),
{
    if package_deps.len() == 0 {
        Seq::empty()
    } else {
        flatten_deps(package_deps.drop_last()) + package_deps.last().1@
    }
}

fn flatten_deps_exec(package_deps: &Vec<(String, Vec<String>)>) -> (r: Vec<String>)
    ensures
        r@ == flatten_deps(package_deps@),
{
    let mut r: Vec<String> = Vec::new();
    let n = package_deps.len();
    let mut i: usize = 0;
    while i < n
        invariant
            i <= n,
            n == package_deps@.len(),
            r@ =~= flatten_deps(package_deps@.take(i as int)),
        decreases n - i,
    {
        proof {
            assert(package_deps@.take(i + 1).drop_last() =~= package_deps@.take(i as int));
            assert(package_deps@.take(i + 1).last() == package_deps@[i as int]);
        }
        let mut part = crate::state::clone_string_vec(&package_deps[i].1);
        r.append(&mut part);
        proof {
            assert(r@ =~= flatten_deps(package_deps@.take(i + 1)));
        }
        i += 1;
    }
    proof {
        assert(package_deps@.take(n as int) =~= package_deps@);
    }
    r
}

/// The first fetched dependency list recorded for `n`.
pub open spec fn lookup_deps_spec(s: Seq<(String, Vec<String>)>, n: Seq<char>) -> Option<
    Seq<Seq<char>>,
>
    decreases s.len(),
{
    if s.len() == 0 {
        None
    } else if s[0].0@ == n {
        Some(s[0].1.deep_view())
    } else {
        lookup_deps_spec(s.drop_first(), n)
    }
}

/// The fetched dependency list of `n`, first match.
fn lookup_deps(package_deps: &Vec<(String, Vec<String>)>, n: &String) -> (r: Option<Vec<String>>)
    ensures
        match r {
            Some(d) => lookup_deps_spec(package_deps@, n@) == Some(d.deep_view()),
            None => lookup_deps_spec(package_deps@, n@) is None,
        },
{
    let len = package_deps.len();
    proof {
        assert(package_deps@.skip(0) =~= package_deps@);
    }
    let mut i: usize = 0;
    while i < len
        invariant
            i <= len,
            len == package_deps@.len(),
            lookup_deps_spec(package_deps@, n@) == lookup_deps_spec(
                package_deps@.skip(i as int),
                n@,
            ),
        decreases len - i,
    {
        proof {
            let tail = package_deps@.skip(i as int);
            assert(tail[0] == package_deps@[i as int]);
            assert(tail.drop_first() =~= package_deps@.skip(i + 1));
        }
        if crate::state::string_eq(&package_deps[i].0, n) {
            let d = crate::state::clone_string_vec(&package_deps[i].1);
            proof {
                assert(d.deep_view() =~~= package_deps@[i as int].1.deep_view());
            }
            return Some(d);
        }
        i += 1;
    }
    proof {
        assert(package_deps@.skip(len as int).len() == 0);
    }
    None
}

/// The settled add-by-URL transaction: inserts the probed package with its
/// source URL. Returns the dependency names to add transitively.
pub fn apply_add_package_url(state: &mut State, url: String, data: PackageData) -> (r: Vec<String>)
    requires
        old(state).wf(),
    ensures
        final(state).wf(),
        final(state).contains_name(data.name@),
        final(state).at(data.name@).url == Some(url@),
        final(state).at(data.name@).is_dependency == false,
        final(state).at(data.name@).build is None,
        final(state).at(data.name@).dependencies == data.depends.deep_view(),
        forall|n: Seq<char>| n != data.name@
            ==> final(state).contains_name(n) == old(state).contains_name(n),
        forall|n: Seq<char>| n != data.name@ && old(state).contains_name(n)
            ==> final(state).at(n) == old(state).at(n),
        r@ == data.depends@,
{
    let r = crate::state::clone_string_vec(&data.depends);
    state.track_package_url(data.name, url, data.depends);
    r
}

/// The remove transaction: stops tracking the named packages and reports the
/// dependencies that became unneeded, for the next remove round (the
/// iterative garbage collection of the unneeded-dependency sweep).
pub fn handle_remove_packages(state: &mut State, packages: &Vec<String>) -> (unneeded: Vec<
    String,
>)
    requires
        old(state).wf(),
    ensures
        final(state).wf(),
        forall|n: Seq<char>| final(state).contains_name(n)
            == (old(state).contains_name(n) && !packages.deep_view().contains(n)),
        forall|n: Seq<char>| final(state).contains_name(n)
            ==> final(state).at(n) == old(state).at(n),
        forall|k: int| 0 <= k < unneeded@.len()
            ==> final(state).is_unneeded((#[trigger] unneeded@[k])@),
        forall|n: Seq<char>| final(state).is_unneeded(n)
            ==> contains_str(unneeded.deep_view(), n),
{
    state.remove_packages(packages);
    state.unneeded_dependencies()
}

} // verus!
