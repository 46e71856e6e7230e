//! The workers that are connected: what each can do, whether it is busy, and
//! when it was last heard of.
//!
//! Times are readings of one monotonic clock, in milliseconds.
use crate::messages::WorkerStatus;
use vstd::prelude::*;

verus! {

/// Profile time that stands for a capability of one.
pub const UNIT_PROFILE_MS: u64 = 1000;

/// How fast a worker is: the number `1000 / profile_ms`, where `profile_ms` is
/// the time its last profile render took, at least one millisecond. It is
/// kept as that time, so that it is exact.
#[derive(Clone, Copy, Debug, PartialEq, Eq, Structural)]
pub struct Capability {
    profile_ms: u64,
}

impl Capability {
    /// The profile time behind this capability.
    pub closed spec fn spec_profile_ms(self) -> u64 {
        self.profile_ms
    }

    /// A capability is positive: its profile time is at least one.
    pub open spec fn wf(self) -> bool {
        self.spec_profile_ms() >= 1
    }

    /// The capability is the fraction `num / den`.
    pub open spec fn is_ratio(self, num: int, den: int) -> bool {
        den > 0 && num * self.spec_profile_ms() == 1000 * den
    }

    /// The capability that a profile time of `compute_ms` gives:
    /// `1000 / max(1, compute_ms)`.
    pub closed spec fn of_profile(compute_ms: u64) -> Capability {
        if compute_ms >= 1 {
            Capability { profile_ms: compute_ms }
        } else {
            Capability { profile_ms: 1 }
        }
    }

    /// The capability of a worker that has not been profiled yet: one.
    pub open spec fn initial_value() -> Capability {
        Capability::of_profile(UNIT_PROFILE_MS)
    }

    /// A profile time of `t` milliseconds, `t` at least one, gives the
    /// capability `1000 / t`; a time of zero counts as one millisecond.
    pub proof fn lemma_of_profile(compute_ms: u64)
        ensures
            Capability::of_profile(compute_ms).wf(),
            compute_ms >= 1 ==> Capability::of_profile(compute_ms).spec_profile_ms() == compute_ms,
            compute_ms >= 1 ==> Capability::of_profile(compute_ms).is_ratio(
                1000,
                compute_ms as int,
            ),
            compute_ms == 0 ==> Capability::of_profile(compute_ms).is_ratio(1000, 1),
            Capability::initial_value().is_ratio(1, 1),
    {
    }

    /// The capability of a worker that has not been profiled yet: one.
    pub fn initial() -> (c: Self)
        ensures
            c == Capability::initial_value(),
            c.wf(),
            c.is_ratio(1, 1),
    {
        Capability { profile_ms: UNIT_PROFILE_MS }
    }

    /// The capability of a worker whose profile render took `compute_ms`:
    /// `1000 / max(1, compute_ms)`.
    pub fn from_profile(compute_ms: u64) -> (c: Self)
        ensures
            c == Capability::of_profile(compute_ms),
            c.wf(),
            compute_ms >= 1 ==> c.is_ratio(1000, compute_ms as int),
            compute_ms == 0 ==> c.is_ratio(1000, 1),
    {
        if compute_ms >= 1 {
            Capability { profile_ms: compute_ms }
        } else {
            Capability { profile_ms: 1 }
        }
    }

    /// The profile time behind this capability.
    #[verifier::when_used_as_spec(spec_profile_ms)]
    pub fn profile_ms(self) -> (ms: u64)
        ensures
            ms == self.spec_profile_ms(),
    {
        self.profile_ms
    }
}

/// Time from `since` to `now`; none if `now` is the earlier one.
pub open spec fn elapsed(now: u64, since: u64) -> u64 {
    if now >= since {
        (now - since) as u64
    } else {
        0
    }
}

/// Time from `since` to `now`; none if `now` is the earlier one.
pub fn elapsed_ms(now: u64, since: u64) -> (ms: u64)
    ensures
        ms == elapsed(now, since),
{
    if now >= since {
        now - since
    } else {
        0
    }
}

/// One connected worker. `outbound` names the channel on which commands are
/// sent to it.
#[derive(Debug)]
pub struct WorkerRecord {
    pub worker_id: String,
    pub outbound: u64,
    pub capability: Capability,
    pub busy: bool,
    pub last_seen: u64,
}

/// What a `WorkerRecord` holds, as plain values.
pub struct WorkerState {
    pub worker_id: Seq<char>,
    pub outbound: u64,
    pub capability: Capability,
    pub busy: bool,
    pub last_seen: u64,
}

impl View for WorkerRecord {
    type V = WorkerState;

    open spec fn view(&self) -> WorkerState {
        WorkerState {
            worker_id: self.worker_id@,
            outbound: self.outbound,
            capability: self.capability,
            busy: self.busy,
            last_seen: self.last_seen,
        }
    }
}

impl WorkerRecord {
    /// A copy of the record.
    pub fn duplicate(&self) -> (copy: Self)
        ensures
            copy@ == self@,
    {
        WorkerRecord {
            worker_id: self.worker_id.clone(),
            outbound: self.outbound,
            capability: self.capability,
            busy: self.busy,
            last_seen: self.last_seen,
        }
    }
}

/// The records as plain values, in the same order.
pub open spec fn states(records: Seq<WorkerRecord>) -> Seq<WorkerState> {
    Seq::new(records.len(), |i: int| records[i]@)
}

/// The members of `s` that `keep` holds of, in the same order.
pub open spec fn kept<T>(s: Seq<T>, keep: spec_fn(T) -> bool) -> Seq<T>
    decreases s.len(),
{
    if s.len() == 0 {
        Seq::empty()
    } else if keep(s.last()) {
        kept(s.drop_last(), keep).push(s.last())
    } else {
        kept(s.drop_last(), keep)
    }
}

/// Every member of `kept(s, keep)` is a member of `s` that `keep` holds of,
/// and every such member of `s` is in it.
pub proof fn lemma_kept_members<T>(s: Seq<T>, keep: spec_fn(T) -> bool)
    ensures
        kept(s, keep).len() <= s.len(),
        forall|k: int|
            0 <= k < kept(s, keep).len() ==> keep(#[trigger] kept(s, keep)[k]) && s.contains(
                kept(s, keep)[k],
            ),
        forall|i: int| 0 <= i < s.len() && keep(#[trigger] s[i]) ==> kept(s, keep).contains(s[i]),
    decreases s.len(),
{
    if s.len() > 0 {
        let front = s.drop_last();
        let last = s.last();
        lemma_kept_members(front, keep);
        let out = kept(s, keep);
        assert forall|k: int| 0 <= k < out.len() implies keep(#[trigger] out[k]) && s.contains(
            out[k],
        ) by {
            if k < kept(front, keep).len() {
                assert(out[k] == kept(front, keep)[k]);
                let i = choose|i: int| 0 <= i < front.len() && front[i] == out[k];
                assert(s[i] == out[k]);
            } else {
                assert(out[k] == last);
                assert(s[s.len() - 1] == last);
            }
        }
        assert forall|i: int| 0 <= i < s.len() && keep(#[trigger] s[i]) implies out.contains(
            s[i],
        ) by {
            if i < s.len() - 1 {
                assert(front[i] == s[i]);
                let k = choose|k: int|
                    0 <= k < kept(front, keep).len() && kept(front, keep)[k] == s[i];
                assert(out[k] == s[i]);
            } else {
                assert(out[out.len() - 1] == s[i]);
            }
        }
    }
}

/// Some worker of `s` has the id `id`.
pub open spec fn knows(s: Seq<WorkerState>, id: Seq<char>) -> bool {
    exists|i: int| 0 <= i < s.len() && (#[trigger] s[i]).worker_id == id
}

/// No two workers of `s` share an id.
pub open spec fn distinct_ids(s: Seq<WorkerState>) -> bool {
    forall|i: int, j: int|
        0 <= i < j < s.len() ==> (#[trigger] s[i]).worker_id != (#[trigger] s[j]).worker_id
}

/// `s` with `change` applied to the worker called `id`, if there is one.
pub open spec fn changed(
    s: Seq<WorkerState>,
    id: Seq<char>,
    change: spec_fn(WorkerState) -> WorkerState,
) -> Seq<WorkerState> {
    Seq::new(
        s.len(),
        |i: int|
            if s[i].worker_id == id {
                change(s[i])
            } else {
                s[i]
            },
    )
}

/// A worker as it is entered on registration: capability one, idle, seen now.
pub open spec fn newcomer(id: Seq<char>, outbound: u64, now: u64) -> WorkerState {
    WorkerState {
        worker_id: id,
        outbound,
        capability: Capability::initial_value(),
        busy: false,
        last_seen: now,
    }
}

/// `s` after `id` has registered: its record is new, in the place of an
/// earlier one of that id or else at the end.
pub open spec fn registered(s: Seq<WorkerState>, id: Seq<char>, outbound: u64, now: u64) -> Seq<
    WorkerState,
> {
    if knows(s, id) {
        changed(s, id, |w: WorkerState| newcomer(id, outbound, now))
    } else {
        s.push(newcomer(id, outbound, now))
    }
}

/// `s` after worker `id` was heard of at `now`.
pub open spec fn touched(s: Seq<WorkerState>, id: Seq<char>, now: u64) -> Seq<WorkerState> {
    changed(s, id, |w: WorkerState| WorkerState { last_seen: now, ..w })
}

/// `s` after worker `id` reported a profile time of `compute_ms` at `now`.
pub open spec fn profiled(s: Seq<WorkerState>, id: Seq<char>, compute_ms: u64, now: u64) -> Seq<
    WorkerState,
> {
    changed(
        s,
        id,
        |w: WorkerState|
            WorkerState {
                capability: Capability::of_profile(compute_ms),
                last_seen: now,
                ..w
            },
    )
}

/// `s` with the busy flag of worker `id` set to `busy`.
pub open spec fn flagged(s: Seq<WorkerState>, id: Seq<char>, busy: bool) -> Seq<WorkerState> {
    changed(s, id, |w: WorkerState| WorkerState { busy, ..w })
}

/// `s` after worker `id` has handed in its work at `now`: it is idle again.
pub open spec fn released(s: Seq<WorkerState>, id: Seq<char>, now: u64) -> Seq<WorkerState> {
    changed(s, id, |w: WorkerState| WorkerState { busy: false, last_seen: now, ..w })
}

/// `s` with every worker whose id is in `ids` set busy.
pub open spec fn all_flagged(s: Seq<WorkerState>, ids: Set<Seq<char>>) -> Seq<WorkerState> {
    Seq::new(
        s.len(),
        |i: int|
            if ids.contains(s[i].worker_id) {
                WorkerState { busy: true, ..s[i] }
            } else {
                s[i]
            },
    )
}

/// The workers of `s` that are not busy.
pub open spec fn idle(s: Seq<WorkerState>) -> Seq<WorkerState> {
    kept(s, |w: WorkerState| !w.busy)
}

/// `s` without worker `id`.
pub open spec fn without(s: Seq<WorkerState>, id: Seq<char>) -> Seq<WorkerState> {
    kept(s, |w: WorkerState| w.worker_id != id)
}

/// The workers of `s` that were heard of less than `threshold` before `now`.
pub open spec fn recent(s: Seq<WorkerState>, now: u64, threshold: u64) -> Seq<WorkerState> {
    kept(s, |w: WorkerState| elapsed(now, w.last_seen) < threshold)
}

/// The connected workers, each id once.
pub struct Registry {
    workers: Vec<WorkerRecord>,
}

impl View for Registry {
    type V = Seq<WorkerState>;

    closed spec fn view(&self) -> Seq<WorkerState> {
        states(self.workers@)
    }
}

impl Registry {
    /// No id occurs twice, and every capability is positive.
    pub open spec fn wf(&self) -> bool {
        &&& distinct_ids(self@)
        &&& forall|i: int| 0 <= i < self@.len() ==> (#[trigger] self@[i]).capability.wf()
    }

    /// A registry without workers.
    pub fn new() -> (registry: Self)
        ensures
            registry@ == Seq::<WorkerState>::empty(),
            registry.wf(),
    {
        let registry = Registry { workers: Vec::new() };
        assert(registry@ =~= Seq::<WorkerState>::empty());
        registry
    }

    /// Number of workers.
    pub fn len(&self) -> (n: usize)
        ensures
            n == self@.len(),
    {
        self.workers.len()
    }

    /// The place of worker `id`, if it is known.
    fn find(&self, id: &String) -> (place: Option<usize>)
        ensures
            match place {
                Some(i) => i < self@.len() && self@[i as int].worker_id == id@,
                None => !knows(self@, id@),
            },
    {
        let n: usize = self.workers.len();
        let mut i: usize = 0;
        while i < n
            invariant
                n == self.workers.len(),
                0 <= i <= n,
                forall|k: int| 0 <= k < i ==> (#[trigger] self@[k]).worker_id != id@,
            decreases n - i,
        {
            if self.workers[i].worker_id == *id {
                assert(self@[i as int] == self.workers@[i as int]@);
                return Some(i);
            }
            assert(self@[i as int] == self.workers@[i as int]@);
            i += 1;
        }
        None
    }

    /// Whether worker `id` is known.
    pub fn contains(&self, id: &String) -> (known: bool)
        ensures
            known == knows(self@, id@),
    {
        match self.find(id) {
            Some(i) => {
                assert(self@[i as int].worker_id == id@);
                true
            },
            None => false,
        }
    }

    /// Puts `record` in the place `i`.
    fn replace(&mut self, i: usize, record: WorkerRecord)
        requires
            i < old(self)@.len(),
        ensures
            final(self)@ == old(self)@.update(i as int, record@),
    {
        self.workers.set(i, record);
        assert(self@ =~= old(self)@.update(i as int, record@));
    }

    /// Enters worker `worker_id` with capability one, idle and seen at `now`.
    /// A worker already known by that id is entered anew.
    pub fn register(&mut self, worker_id: String, outbound: u64, now: u64)
        requires
            old(self).wf(),
        ensures
            final(self).wf(),
            final(self)@ == registered(old(self)@, worker_id@, outbound, now),
            knows(final(self)@, worker_id@),
    {
        let ghost id = worker_id@;
        let place = self.find(&worker_id);
        let record = WorkerRecord {
            worker_id,
            outbound,
            capability: Capability::initial(),
            busy: false,
            last_seen: now,
        };
        assert(record@ == newcomer(id, outbound, now));
        match place {
            Some(i) => {
                self.replace(i, record);
                assert(knows(old(self)@, id));
                assert(self@ =~= registered(old(self)@, id, outbound, now)) by {
                    assert forall|k: int| 0 <= k < self@.len() implies self@[k] == registered(
                        old(self)@,
                        id,
                        outbound,
                        now,
                    )[k] by {
                        if k != i {
                            if k < i {
                                assert(old(self)@[k].worker_id != old(self)@[i as int].worker_id);
                            } else {
                                assert(old(self)@[i as int].worker_id != old(self)@[k].worker_id);
                            }
                        }
                    }
                }
                assert(self@[i as int].worker_id == id);
            },
            None => {
                self.workers.push(record);
                assert(self@ =~= old(self)@.push(record@));
                assert(self@[self@.len() - 1].worker_id == id);
            },
        }
        proof {
            Capability::lemma_of_profile(UNIT_PROFILE_MS);
            lemma_changed_keeps_ids(
                old(self)@,
                id,
                |w: WorkerState| newcomer(id, outbound, now),
            );
        }
    }

    /// Applies to the record of worker `id`, if it is known, what `touch`,
    /// `set_capability` and `mark_busy` have in common.
    fn update_record(
        &mut self,
        id: &String,
        capability: Option<Capability>,
        busy: Option<bool>,
        last_seen: Option<u64>,
    )
        requires
            old(self).wf(),
            capability matches Some(c) ==> c.wf(),
        ensures
            final(self).wf(),
            final(self)@ == changed(
                old(self)@,
                id@,
                |w: WorkerState|
                    WorkerState {
                        capability: if let Some(c) = capability {
                            c
                        } else {
                            w.capability
                        },
                        busy: if let Some(b) = busy {
                            b
                        } else {
                            w.busy
                        },
                        last_seen: if let Some(t) = last_seen {
                            t
                        } else {
                            w.last_seen
                        },
                        ..w
                    },
            ),
    {
        let ghost change = |w: WorkerState|
            WorkerState {
                capability: if let Some(c) = capability {
                    c
                } else {
                    w.capability
                },
                busy: if let Some(b) = busy {
                    b
                } else {
                    w.busy
                },
                last_seen: if let Some(t) = last_seen {
                    t
                } else {
                    w.last_seen
                },
                ..w
            };
        proof {
            lemma_changed_keeps_ids(old(self)@, id@, change);
        }
        match self.find(id) {
            Some(i) => {
                let current = &self.workers[i];
                assert(self@[i as int] == current@);
                let record = WorkerRecord {
                    worker_id: current.worker_id.clone(),
                    outbound: current.outbound,
                    capability: match capability {
                        Some(c) => c,
                        None => current.capability,
                    },
                    busy: match busy {
                        Some(b) => b,
                        None => current.busy,
                    },
                    last_seen: match last_seen {
                        Some(t) => t,
                        None => current.last_seen,
                    },
                };
                assert(record@ == change(old(self)@[i as int]));
                self.replace(i, record);
                assert(self@ =~= changed(old(self)@, id@, change)) by {
                    assert forall|k: int| 0 <= k < self@.len() implies self@[k] == changed(
                        old(self)@,
                        id@,
                        change,
                    )[k] by {
                        if k < i {
                            assert(old(self)@[k].worker_id != old(self)@[i as int].worker_id);
                        } else if k > i {
                            assert(old(self)@[i as int].worker_id != old(self)@[k].worker_id);
                        }
                    }
                }
            },
            None => {
                assert(self@ =~= changed(old(self)@, id@, change)) by {
                    assert forall|k: int| 0 <= k < self@.len() implies self@[k] == changed(
                        old(self)@,
                        id@,
                        change,
                    )[k] by {
                        if self@[k].worker_id == id@ {
                            assert(knows(self@, id@));
                        }
                    }
                }
            },
        }
    }

    /// Notes that worker `id` was heard of at `now`; nothing changes if it is
    /// not known.
    pub fn touch(&mut self, id: &String, now: u64)
        requires
            old(self).wf(),
        ensures
            final(self).wf(),
            final(self)@ == touched(old(self)@, id@, now),
    {
        self.update_record(id, None, None, Some(now));
        assert(self@ =~= touched(old(self)@, id@, now));
    }

    /// Gives worker `id` the capability `1000 / max(1, compute_ms)` and notes
    /// that it was heard of at `now`; nothing changes if it is not known.
    pub fn set_capability(&mut self, id: &String, compute_ms: u64, now: u64)
        requires
            old(self).wf(),
        ensures
            final(self).wf(),
            final(self)@ == profiled(old(self)@, id@, compute_ms, now),
    {
        self.update_record(id, Some(Capability::from_profile(compute_ms)), None, Some(now));
        assert(self@ =~= profiled(old(self)@, id@, compute_ms, now));
    }

    /// Notes that worker `id` handed in its work at `now`: it is idle again.
    /// Nothing changes if it is not known.
    pub fn release(&mut self, id: &String, now: u64)
        requires
            old(self).wf(),
        ensures
            final(self).wf(),
            final(self)@ == released(old(self)@, id@, now),
    {
        self.update_record(id, None, Some(false), Some(now));
        assert(self@ =~= released(old(self)@, id@, now));
    }

    /// Sets the busy flag of worker `id`; nothing changes if it is not known.
    pub fn mark_busy(&mut self, id: &String, busy: bool)
        requires
            old(self).wf(),
        ensures
            final(self).wf(),
            final(self)@ == flagged(old(self)@, id@, busy),
    {
        self.update_record(id, None, Some(busy), None);
        assert(self@ =~= flagged(old(self)@, id@, busy));
    }

    /// The workers that are not busy, in the order of the registry.
    pub fn snapshot_idle(&self) -> (snapshot: Vec<WorkerRecord>)
        ensures
            states(snapshot@) == idle(self@),
    {
        let ghost keep = |w: WorkerState| !w.busy;
        let mut snapshot: Vec<WorkerRecord> = Vec::new();
        let n: usize = self.workers.len();
        let mut i: usize = 0;
        assert(self@.take(0) =~= Seq::<WorkerState>::empty());
        assert(states(snapshot@) =~= kept(self@.take(0), keep));
        while i < n
            invariant
                n == self.workers.len(),
                0 <= i <= n,
                keep == (|w: WorkerState| !w.busy),
                states(snapshot@) == kept(self@.take(i as int), keep),
            decreases n - i,
        {
            proof {
                lemma_kept_take(self@, i as int, keep);
            }
            if !self.workers[i].busy {
                let copy = self.workers[i].duplicate();
                let ghost earlier = snapshot@;
                snapshot.push(copy);
                assert(states(snapshot@) =~= states(earlier).push(copy@));
            }
            i += 1;
        }
        assert(self@.take(n as int) =~= self@);
        snapshot
    }

    /// Takes worker `id` out; nothing changes if it is not known.
    pub fn remove(&mut self, id: &String)
        requires
            old(self).wf(),
        ensures
            final(self).wf(),
            final(self)@ == without(old(self)@, id@),
            !knows(final(self)@, id@),
    {
        let ghost before = self@;
        let ghost name = id@;
        let ghost keep = |w: WorkerState| w.worker_id != name;
        let mut i: usize = 0;
        let ghost mut j: int = 0;
        assert(self@.take(0) =~= kept(before.take(0), keep));
        assert(before.len() == self.workers.len());
        while i < self.workers.len()
            invariant
                0 <= j <= before.len(),
                0 <= i <= self@.len(),
                keep == (|w: WorkerState| w.worker_id != name),
                name == id@,
                self@.len() - i == before.len() - j,
                self@.take(i as int) == kept(before.take(j), keep),
                before.len() <= usize::MAX,
                forall|k: int| i <= k < self@.len() ==> #[trigger] self@[k] == before[k + j - i],
            decreases self@.len() - i,
        {
            proof {
                lemma_kept_take(before, j, keep);
                assert(self@[i as int] == before[j]);
            }
            let ghost current = self@;
            assert(self@[i as int] == self.workers@[i as int]@);
            if self.workers[i].worker_id == *id {
                self.workers.remove(i);
                assert(self@ =~= current.remove(i as int));
                assert(self@.take(i as int) =~= current.take(i as int));
                assert forall|k: int| i <= k < self@.len() implies #[trigger] self@[k] == before[k
                    + j + 1 - i] by {
                    assert(self@[k] == current[k + 1]);
                }
            } else {
                i += 1;
                assert(self@.take(i as int) =~= current.take(i - 1).push(current[i - 1]));
                assert forall|k: int| i <= k < self@.len() implies #[trigger] self@[k] == before[k
                    + j + 1 - i] by {
                    assert(self@[k] == current[k]);
                }
            }
            proof {
                j = j + 1;
            }
        }
        proof {
            assert(self@.take(i as int) =~= self@);
            assert(before.take(j) =~= before);
            lemma_kept_members(before, keep);
            lemma_kept_distinct(before, keep);
            assert(!knows(self@, name)) by {
                if knows(self@, name) {
                    let k = choose|k: int|
                        0 <= k < self@.len() && (#[trigger] self@[k]).worker_id == name;
                    assert(keep(kept(before, keep)[k]));
                }
            }
            assert forall|k: int| 0 <= k < self@.len() implies (
            #[trigger] self@[k]).capability.wf() by {
                assert(before.contains(kept(before, keep)[k]));
            }
        }
    }

    /// Takes out the workers that were last heard of `threshold` milliseconds
    /// before `now` or earlier, and says how many they were.
    pub fn evict_stale(&mut self, now: u64, threshold: u64) -> (removed: usize)
        requires
            old(self).wf(),
        ensures
            final(self).wf(),
            final(self)@ == recent(old(self)@, now, threshold),
            removed == old(self)@.len() - final(self)@.len(),
    {
        let ghost before = self@;
        let ghost keep = |w: WorkerState| elapsed(now, w.last_seen) < threshold;
        let mut removed: usize = 0;
        let mut i: usize = 0;
        let ghost mut j: int = 0;
        assert(self@.take(0) =~= kept(before.take(0), keep));
        assert(before.len() == self.workers.len());
        while i < self.workers.len()
            invariant
                0 <= j <= before.len(),
                0 <= i <= self@.len(),
                keep == (|w: WorkerState| elapsed(now, w.last_seen) < threshold),
                self@.len() - i == before.len() - j,
                self@.take(i as int) == kept(before.take(j), keep),
                before.len() <= usize::MAX,
                forall|k: int| i <= k < self@.len() ==> #[trigger] self@[k] == before[k + j - i],
                removed + self@.len() == before.len(),
            decreases self@.len() - i,
        {
            proof {
                lemma_kept_take(before, j, keep);
                assert(self@[i as int] == before[j]);
            }
            let ghost current = self@;
            assert(self@[i as int] == self.workers@[i as int]@);
            if elapsed_ms(now, self.workers[i].last_seen) < threshold {
                i += 1;
                assert(self@.take(i as int) =~= current.take(i - 1).push(current[i - 1]));
                assert forall|k: int| i <= k < self@.len() implies #[trigger] self@[k] == before[k
                    + j + 1 - i] by {
                    assert(self@[k] == current[k]);
                }
            } else {
                self.workers.remove(i);
                removed += 1;
                assert(self@ =~= current.remove(i as int));
                assert(self@.take(i as int) =~= current.take(i as int));
                assert forall|k: int| i <= k < self@.len() implies #[trigger] self@[k] == before[k
                    + j + 1 - i] by {
                    assert(self@[k] == current[k + 1]);
                }
            }
            proof {
                j = j + 1;
            }
        }
        proof {
            assert(self@.take(i as int) =~= self@);
            assert(before.take(j) =~= before);
            lemma_kept_members(before, keep);
            lemma_kept_distinct(before, keep);
            assert forall|k: int| 0 <= k < self@.len() implies (
            #[trigger] self@[k]).capability.wf() by {
                assert(before.contains(kept(before, keep)[k]));
            }
        }
        removed
    }

    /// One status entry for each worker, in the order of the registry, with
    /// the time since it was last heard of.
    pub fn statuses(&self, now: u64) -> (list: Vec<WorkerStatus>)
        ensures
            list@.len() == self@.len(),
            forall|i: int|
                0 <= i < list@.len() ==> {
                    &&& (#[trigger] list@[i]).worker_id@ == self@[i].worker_id
                    &&& list@[i].capability == self@[i].capability
                    &&& list@[i].last_seen_ms == elapsed(now, self@[i].last_seen)
                },
    {
        let mut list: Vec<WorkerStatus> = Vec::new();
        let n: usize = self.workers.len();
        let mut i: usize = 0;
        while i < n
            invariant
                n == self.workers.len(),
                0 <= i <= n,
                list@.len() == i,
                forall|k: int|
                    0 <= k < i ==> {
                        &&& (#[trigger] list@[k]).worker_id@ == self@[k].worker_id
                        &&& list@[k].capability == self@[k].capability
                        &&& list@[k].last_seen_ms == elapsed(now, self@[k].last_seen)
                    },
            decreases n - i,
        {
            let record = &self.workers[i];
            assert(self@[i as int] == record@);
            list.push(
                WorkerStatus {
                    worker_id: record.worker_id.clone(),
                    capability: record.capability,
                    last_seen_ms: elapsed_ms(now, record.last_seen),
                },
            );
            i += 1;
        }
        list
    }

    /// The channels of all workers, in the order of the registry.
    pub fn outbounds(&self) -> (list: Vec<u64>)
        ensures
            list@ == Seq::new(self@.len(), |i: int| self@[i].outbound),
    {
        let mut list: Vec<u64> = Vec::new();
        let n: usize = self.workers.len();
        let mut i: usize = 0;
        while i < n
            invariant
                n == self.workers.len(),
                0 <= i <= n,
                list@.len() == i,
                forall|k: int| 0 <= k < i ==> list@[k] == self@[k].outbound,
            decreases n - i,
        {
            assert(self@[i as int] == self.workers@[i as int]@);
            list.push(self.workers[i].outbound);
            i += 1;
        }
        assert(list@ =~= Seq::new(self@.len(), |i: int| self@[i].outbound));
        list
    }
}

/// What `kept` makes of one more member.
pub proof fn lemma_kept_take<T>(s: Seq<T>, j: int, keep: spec_fn(T) -> bool)
    requires
        0 <= j < s.len(),
    ensures
        kept(s.take(j + 1), keep) == if keep(s[j]) {
            kept(s.take(j), keep).push(s[j])
        } else {
            kept(s.take(j), keep)
        },
{
    assert(s.take(j + 1).drop_last() =~= s.take(j));
    assert(s.take(j + 1).last() == s[j]);
}

/// Keeping some workers of a list with distinct ids leaves the ids distinct.
pub proof fn lemma_kept_distinct(s: Seq<WorkerState>, keep: spec_fn(WorkerState) -> bool)
    requires
        distinct_ids(s),
    ensures
        distinct_ids(kept(s, keep)),
    decreases s.len(),
{
    if s.len() > 0 {
        let front = s.drop_last();
        assert(distinct_ids(front)) by {
            assert forall|i: int, j: int| 0 <= i < j < front.len() implies (
            #[trigger] front[i]).worker_id != (#[trigger] front[j]).worker_id by {
                assert(front[i] == s[i] && front[j] == s[j]);
            }
        }
        lemma_kept_distinct(front, keep);
        lemma_kept_members(front, keep);
        let out = kept(s, keep);
        let inner = kept(front, keep);
        assert forall|i: int, j: int| 0 <= i < j < out.len() implies (#[trigger] out[i]).worker_id
            != (#[trigger] out[j]).worker_id by {
            if j < inner.len() {
                assert(out[i] == inner[i] && out[j] == inner[j]);
            } else {
                assert(out[i] == inner[i]);
                assert(front.contains(inner[i]));
                let k = choose|k: int| 0 <= k < front.len() && front[k] == inner[i];
                assert(s[k] == front[k]);
                assert(s[k].worker_id != s[s.len() - 1].worker_id);
            }
        }
    }
}

/// Changing a worker in place keeps every id, so no id comes to occur twice.
pub proof fn lemma_changed_keeps_ids(
    s: Seq<WorkerState>,
    id: Seq<char>,
    change: spec_fn(WorkerState) -> WorkerState,
)
    requires
        distinct_ids(s),
        forall|w: WorkerState| w.worker_id == id ==> (#[trigger] change(w)).worker_id == id,
    ensures
        distinct_ids(changed(s, id, change)),
        forall|i: int|
            0 <= i < s.len() ==> (#[trigger] changed(s, id, change)[i]).worker_id == s[i].worker_id,
{
    let t = changed(s, id, change);
    assert forall|i: int| 0 <= i < s.len() implies (#[trigger] t[i]).worker_id
        == s[i].worker_id by {}
    assert forall|i: int, j: int| 0 <= i < j < t.len() implies (#[trigger] t[i]).worker_id != (
    #[trigger] t[j]).worker_id by {
        assert(s[i].worker_id != s[j].worker_id);
    }
}

/// A worker that was last heard of `threshold` milliseconds before `now` or
/// earlier is not among the workers that eviction leaves.
pub proof fn lemma_stale_worker_leaves(s: Seq<WorkerState>, now: u64, threshold: u64, i: int)
    requires
        distinct_ids(s),
        0 <= i < s.len(),
        elapsed(now, s[i].last_seen) >= threshold,
    ensures
        !knows(recent(s, now, threshold), s[i].worker_id),
{
    let keep = |w: WorkerState| elapsed(now, w.last_seen) < threshold;
    let left = recent(s, now, threshold);
    lemma_kept_members(s, keep);
    if knows(left, s[i].worker_id) {
        let k = choose|k: int|
            0 <= k < left.len() && (#[trigger] left[k]).worker_id == s[i].worker_id;
        assert(keep(left[k]) && s.contains(left[k]));
        let j = choose|j: int| 0 <= j < s.len() && s[j] == left[k];
        if j < i {
            assert(s[j].worker_id != s[i].worker_id);
        } else if i < j {
            assert(s[i].worker_id != s[j].worker_id);
        }
    }
}

/// A worker that was heard of less than `threshold` milliseconds before `now`
/// stays when the stale ones are evicted, as it was.
pub proof fn lemma_recent_worker_stays(s: Seq<WorkerState>, now: u64, threshold: u64, i: int)
    requires
        0 <= i < s.len(),
        elapsed(now, s[i].last_seen) < threshold,
    ensures
        recent(s, now, threshold).contains(s[i]),
{
    lemma_kept_members(s, |w: WorkerState| elapsed(now, w.last_seen) < threshold);
}

} // verus!
