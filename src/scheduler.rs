//! The per-derivation build state machine and how outcomes propagate along the graph.
//!
//! A success makes direct dependants whose dependencies all succeeded buildable, a failure
//! makes every transitive dependant fail, and an interruption either starts a new attempt or
//! blocks every transitive dependant. Terminal states are never left.
use vstd::prelude::*;

use crate::attempt::{
    spec_is_terminal, EventView, MetadataView, ForInsert, DrvBuildEvent, DrvBuildId, DrvBuildInterruptionKind, DrvBuildMetadata,
    DrvBuildResult, DrvBuildState,
};
use crate::drv::DrvId;
use crate::store::{
    StoreModel, lemma_attempts_other,
    build_is_terminal, ids, is_latest, last_event_of, latest_in_state, lemma_last_event_of, lemma_last_event_push,
    lemma_latest_in_state, lemma_latest_in_state_complete, reaches, same_build, attempts_of, Store,
    StoreError,
};

verus! {

/// Which interruption kinds start a new build attempt on their own.
#[derive(Clone, Copy, Debug, PartialEq, Eq, Structural)]
pub struct RetryPolicy {
    pub out_of_memory: bool,
    pub timeout: bool,
    pub cancelled: bool,
    pub process_death: bool,
    pub scheduler_death: bool,
}

impl RetryPolicy {
    pub open spec fn spec_retries(self, k: DrvBuildInterruptionKind) -> bool {
        match k {
            DrvBuildInterruptionKind::OutOfMemory => self.out_of_memory,
            DrvBuildInterruptionKind::Timeout => self.timeout,
            DrvBuildInterruptionKind::Cancelled => self.cancelled,
            DrvBuildInterruptionKind::ProcessDeath => self.process_death,
            DrvBuildInterruptionKind::SchedulerDeath => self.scheduler_death,
        }
    }

    /// Retries after running out of memory only. A build interrupted by a death of the
    /// scheduler blocks its dependants until it is built again.
    pub fn new() -> (r: RetryPolicy)
        ensures
            r.out_of_memory,
            !r.timeout && !r.cancelled && !r.process_death && !r.scheduler_death,
    {
        RetryPolicy {
            out_of_memory: true,
            timeout: false,
            cancelled: false,
            process_death: false,
            scheduler_death: false,
        }
    }

    pub fn retries(&self, k: DrvBuildInterruptionKind) -> (r: bool)
        ensures
            r == self.spec_retries(k),
    {
        match k {
            DrvBuildInterruptionKind::OutOfMemory => self.out_of_memory,
            DrvBuildInterruptionKind::Timeout => self.timeout,
            DrvBuildInterruptionKind::Cancelled => self.cancelled,
            DrvBuildInterruptionKind::ProcessDeath => self.process_death,
            DrvBuildInterruptionKind::SchedulerDeath => self.scheduler_death,
        }
    }
}

/// What happened to a dependency of a derivation.
#[derive(Clone, Copy, Debug, PartialEq, Eq, Structural)]
pub enum Propagation {
    /// A direct dependency built successfully.
    Succeeded,
    /// A transitive dependency failed to build.
    Failed,
    /// A transitive dependency was interrupted and will not be retried.
    Interrupted,
}

/// The state a dependant moves to from `current`, if any. `ready` says whether all its
/// dependencies have built successfully. Terminal states are never left, a failure dominates a
/// blocking, and a blocked derivation is queued again once a dependency succeeds.
pub open spec fn spec_next_state(p: Propagation, ready: bool, current: DrvBuildState) -> Option<
    DrvBuildState,
> {
    if spec_is_terminal(current) {
        None
    } else {
        match p {
            Propagation::Failed => Some(DrvBuildState::TransitiveFailure),
            Propagation::Interrupted => if current == DrvBuildState::Blocked {
                None
            } else {
                Some(DrvBuildState::Blocked)
            },
            Propagation::Succeeded => if ready && current != DrvBuildState::Buildable && current
                != DrvBuildState::Building {
                Some(DrvBuildState::Buildable)
            } else if current == DrvBuildState::Blocked {
                Some(DrvBuildState::Queued)
            } else {
                None
            },
        }
    }
}

pub fn next_state(p: Propagation, ready: bool, current: DrvBuildState) -> (r: Option<DrvBuildState>)
    ensures
        r == spec_next_state(p, ready, current),
{
    if current.is_terminal() {
        return None;
    }
    match p {
        Propagation::Failed => Some(DrvBuildState::TransitiveFailure),
        Propagation::Interrupted => {
            if current == DrvBuildState::Blocked {
                None
            } else {
                Some(DrvBuildState::Blocked)
            }
        },
        Propagation::Succeeded => {
            if ready && current != DrvBuildState::Buildable && current != DrvBuildState::Building {
                Some(DrvBuildState::Buildable)
            } else if current == DrvBuildState::Blocked {
                Some(DrvBuildState::Queued)
            } else {
                None
            }
        },
    }
}

/// Whether the latest event of each direct dependency of `drv` is a successful completion.
pub fn all_dependencies_succeeded(store: &Store, drv: &String) -> (r: bool)
    ensures
        r == all_succeeded(store@.edges, store@.events, drv@),
{
    let deps = store.dependencies(drv);
    let mut i: usize = 0;
    while i < deps.len()
        invariant
            i <= deps.len(),
            forall|x: Seq<char>| ids(deps@).contains(x) <==> store@.edges.contains((drv@, x)),
            forall|j: int|
                0 <= j < i ==> last_event_of(store@.events, #[trigger] ids(deps@)[j]) >= 0
                    && store@.events[last_event_of(store@.events, ids(deps@)[j])].state == DrvBuildState::Completed(
                    DrvBuildResult::Success,
                ),
        decreases deps.len() - i,
    {
        assert(ids(deps@)[i as int] == deps@[i as int]@);
        match store.get_latest_build_event(&DrvId::from_string(deps[i].clone())) {
            Some(e) => {
                if e.state != DrvBuildState::Completed(DrvBuildResult::Success) {
                    proof {
                        assert(ids(deps@).contains(deps@[i as int]@));
                    }
                    return false;
                }
            },
            None => {
                proof {
                    assert(ids(deps@).contains(deps@[i as int]@));
                }
                return false;
            },
        }
        i = i + 1;
    }
    proof {
        assert forall|y: Seq<char>| #![trigger store@.edges.contains((drv@, y))] store@.edges.contains((drv@, y)) implies last_event_of(
            store@.events,
            y,
        ) >= 0 && store@.events[last_event_of(store@.events, y)].state == DrvBuildState::Completed(
            DrvBuildResult::Success,
        ) by {
            assert(ids(deps@).contains(y));
            let q = choose|q: int| 0 <= q < ids(deps@).len() && ids(deps@)[q] == y;
            assert(last_event_of(store@.events, ids(deps@)[q]) >= 0);
        }
    }
    true
}

/// The states that propagating `p` writes.
pub open spec fn writes(p: Propagation, s: DrvBuildState) -> bool {
    match p {
        Propagation::Failed => s == DrvBuildState::TransitiveFailure,
        Propagation::Interrupted => s == DrvBuildState::Blocked,
        Propagation::Succeeded => s == DrvBuildState::Buildable || s == DrvBuildState::Queued,
    }
}

/// A new attempt at build `b` can be opened: its metadata is stored, to be copied, and the
/// derivation has attempt numbers left.
pub open spec fn can_retry(builds: Seq<MetadataView>, b: (Seq<char>, u32)) -> bool {
    &&& exists|i: int|
        0 <= i < builds.len() && (#[trigger] builds[i]).derivation == b.0 && builds[i].build_attempt == b.1
    &&& attempts_of(builds, b.0) < u32::MAX
}

/// The identifiers in `s`, as a set.
pub open spec fn id_set(s: Seq<Seq<char>>) -> Set<Seq<char>> {
    Set::new(|y: Seq<char>| s.contains(y))
}

/// The derivations with an edge to `d`.
pub open spec fn direct_dependant_set(edges: Seq<(Seq<char>, Seq<char>)>, d: Seq<char>) -> Set<Seq<char>> {
    Set::new(|y: Seq<char>| edges.contains((y, d)))
}

/// The derivations that depend on `d`, directly or transitively.
pub open spec fn dependant_set(edges: Seq<(Seq<char>, Seq<char>)>, d: Seq<char>) -> Set<Seq<char>> {
    Set::new(|y: Seq<char>| reaches(edges, y, d))
}

/// The latest event of `z` is a successful completion.
pub open spec fn succeeded(events: Seq<EventView>, z: Seq<char>) -> bool {
    last_event_of(events, z) >= 0 && events[last_event_of(events, z)].state == DrvBuildState::Completed(
        DrvBuildResult::Success,
    )
}

/// Every direct dependency of `x` has succeeded.
pub open spec fn all_succeeded(edges: Seq<(Seq<char>, Seq<char>)>, events: Seq<EventView>, x: Seq<char>) -> bool {
    forall|y: Seq<char>| #![trigger edges.contains((x, y))] edges.contains((x, y)) ==> succeeded(events, y)
}

/// What `propagate` does to a target: the target's new state, where it changes.
pub open spec fn propagated(
    p: Propagation,
    edges: Seq<(Seq<char>, Seq<char>)>,
    events: Seq<EventView>,
    x: Seq<char>,
) -> Option<DrvBuildState> {
    let lo = last_event_of(events, x);
    if lo < 0 {
        None
    } else {
        spec_next_state(p, all_succeeded(edges, events, x), events[lo].state)
    }
}

/// After `propagate` over `members`, where the events were `old` and are now `cur`: a member
/// that `p` moves has a new latest event in the state it moves to, for the same attempt; any
/// other derivation keeps its latest event.
pub open spec fn propagation_done(
    p: Propagation,
    edges: Seq<(Seq<char>, Seq<char>)>,
    old: Seq<EventView>,
    cur: Seq<EventView>,
    members: Set<Seq<char>>,
    x: Seq<char>,
) -> bool {
    if members.contains(x) && propagated(p, edges, old, x) is Some {
        last_event_of(cur, x) >= 0 && cur[last_event_of(cur, x)].state == propagated(p, edges, old, x)->0
            && cur[last_event_of(cur, x)].build_attempt == old[last_event_of(old, x)].build_attempt
    } else {
        last_event_of(cur, x) == last_event_of(old, x)
    }
}

proof fn lemma_all_succeeded_same(
    edges: Seq<(Seq<char>, Seq<char>)>,
    a: Seq<EventView>,
    b: Seq<EventView>,
    x: Seq<char>,
)
    requires
        forall|z: Seq<char>| #[trigger] succeeded(a, z) == succeeded(b, z),
    ensures
        all_succeeded(edges, a, x) == all_succeeded(edges, b, x),
{
    if all_succeeded(edges, a, x) {
        assert forall|y: Seq<char>| #![trigger edges.contains((x, y))] edges.contains((x, y)) implies succeeded(b, y) by {
            assert(succeeded(a, y) == succeeded(b, y));
        }
    }
    if all_succeeded(edges, b, x) {
        assert forall|y: Seq<char>| #![trigger edges.contains((x, y))] edges.contains((x, y)) implies succeeded(a, y) by {
            assert(succeeded(a, y) == succeeded(b, y));
        }
    }
}

/// Writes, for the current attempt of each target, the state that `p` moves it to, judging
/// readiness by the events as they were before. A target without events, or that `p` leaves
/// where it is, gets no event. No state written is a success, so readiness does not change
/// while the targets are visited.
pub fn propagate(store: &mut Store, targets: &Vec<String>, p: Propagation)
    requires
        old(store).wf(),
        ids(targets@).no_duplicates(),
    ensures
        final(store).wf(),
        final(store)@.drvs == old(store)@.drvs,
        final(store)@.edges == old(store)@.edges,
        final(store)@.builds == old(store)@.builds,
        old(store)@.events.is_prefix_of(final(store)@.events),
        forall|i: int|
            old(store)@.events.len() <= i < final(store)@.events.len() ==> writes(p, #[trigger] final(store)@.events[i].state),
        forall|x: Seq<char>|
            #[trigger] propagation_done(
                p,
                old(store)@.edges,
                old(store)@.events,
                final(store)@.events,
                id_set(ids(targets@)),
                x,
            ),
{
    let ghost old_m = store@;
    let mut k: usize = 0;
    proof {
        assert(old_m.events.subrange(0, old_m.events.len() as int) =~= old_m.events);
        assert forall|x: Seq<char>| #[trigger] propagation_done(
            p,
            old_m.edges,
            old_m.events,
            store@.events,
            id_set(ids(targets@.subrange(0, 0))),
            x,
        ) by {
            assert(ids(targets@.subrange(0, 0)) =~= Seq::<Seq<char>>::empty());
        }
    }
    while k < targets.len()
        invariant
            store.wf(),
            k <= targets.len(),
            ids(targets@).no_duplicates(),
            store@.drvs == old_m.drvs,
            store@.edges == old_m.edges,
            store@.builds == old_m.builds,
            old_m.events.is_prefix_of(store@.events),
            forall|i: int| old_m.events.len() <= i < store@.events.len() ==> writes(p, #[trigger] store@.events[i].state),
            forall|z: Seq<char>| #[trigger] succeeded(store@.events, z) == succeeded(old_m.events, z),
            forall|x: Seq<char>|
                #[trigger] propagation_done(
                    p,
                    old_m.edges,
                    old_m.events,
                    store@.events,
                    id_set(ids(targets@.subrange(0, k as int))),
                    x,
                ),
        decreases targets.len() - k,
    {
        let x = &targets[k];
        let ghost xv = x@;
        let ghost before = store@;
        let ghost done_seq = ids(targets@.subrange(0, k as int));
        let ghost next_seq = ids(targets@.subrange(0, k + 1));
        let ghost done = id_set(done_seq);
        let ghost next = id_set(next_seq);
        proof {
            assert(ids(targets@)[k as int] == xv);
            assert(!done_seq.contains(xv)) by {
                if done_seq.contains(xv) {
                    let q = choose|q: int| 0 <= q < k && done_seq[q] == xv;
                    assert(ids(targets@)[q] == xv);
                }
            }
            assert forall|y: Seq<char>| next_seq.contains(y) <==> (done_seq.contains(y) || y == xv) by {
                if next_seq.contains(y) {
                    let q = choose|q: int| 0 <= q < next_seq.len() && next_seq[q] == y;
                    if q < k {
                        assert(done_seq[q] == y);
                    }
                }
                if done_seq.contains(y) {
                    let q = choose|q: int| 0 <= q < done_seq.len() && done_seq[q] == y;
                    assert(next_seq[q] == y);
                }
                if y == xv {
                    assert(next_seq[k as int] == y);
                }
            }
            lemma_last_event_of(old_m.events, xv);
            assert(propagation_done(p, old_m.edges, old_m.events, before.events, done, xv));
            assert(last_event_of(before.events, xv) == last_event_of(old_m.events, xv));
        }
        let current = store.get_latest_build_event(&DrvId::from_string(x.clone()));
        if let Some(cur) = current {
            let ready = if p == Propagation::Succeeded {
                all_dependencies_succeeded(store, x)
            } else {
                false
            };
            proof {
                lemma_all_succeeded_same(old_m.edges, before.events, old_m.events, xv);
                lemma_last_event_of(before.events, xv);
                let lo = last_event_of(old_m.events, xv);
                assert(old_m.events[lo] == before.events.subrange(0, old_m.events.len() as int)[lo]);
                assert(spec_next_state(p, ready, cur.state) == propagated(p, old_m.edges, old_m.events, xv));
            }
            match next_state(p, ready, cur.state) {
                Some(s) => {
                    proof {
                        lemma_last_event_of(store@.events, xv);
                        store.lemma_latest_not_terminal(xv);
                        assert(cur.build@.0 == xv);
                    }
                    let r = store.new_drv_build_event(DrvBuildEvent::for_insert(cur.build, s));
                    proof {
                        assert(r is Ok);
                        let e = r->Ok_0@;
                        assert(store@.events == before.events.push(e));
                        assert(writes(p, s));
                        assert forall|i: int| old_m.events.len() <= i < store@.events.len() implies writes(
                            p,
                            #[trigger] store@.events[i].state,
                        ) by {
                            if i < before.events.len() {
                                assert(store@.events[i] == before.events[i]);
                            }
                        }
                        lemma_last_event_push(before.events, e, xv);
                        let lo = last_event_of(old_m.events, xv);
                        assert(before.events[lo] == old_m.events[lo]);
                        assert(store@.events[last_event_of(store@.events, xv)] == e);
                        assert(propagation_done(p, old_m.edges, old_m.events, store@.events, next, xv));
                        assert(!succeeded(store@.events, xv));
                        assert(!succeeded(before.events, xv));
                    }
                },
                None => {
                    proof {
                        assert(propagation_done(p, old_m.edges, old_m.events, store@.events, next, xv));
                    }
                },
            }
        } else {
            proof {
                assert(propagation_done(p, old_m.edges, old_m.events, store@.events, next, xv));
            }
        }
        proof {
            {
                assert forall|y: Seq<char>| #[trigger] succeeded(store@.events, y) == succeeded(old_m.events, y) by {
                    if y != xv {
                        if store@.events.len() > before.events.len() {
                            assert(store@.events == before.events.push(store@.events.last()));
                            lemma_last_event_push(before.events, store@.events.last(), y);
                        } else {
                            assert(store@.events == before.events);
                        }
                        lemma_last_event_of(before.events, y);
                        let l = last_event_of(before.events, y);
                        if l >= 0 {
                            assert(store@.events[l] == before.events[l]);
                        }
                        assert(succeeded(before.events, y) == succeeded(old_m.events, y));
                    } else {
                        assert(succeeded(before.events, xv) == succeeded(old_m.events, xv));
                    }
                }
                assert forall|y: Seq<char>| #[trigger] propagation_done(p, old_m.edges, old_m.events, store@.events, next, y) by {
                    if y != xv {
                        if store@.events.len() > before.events.len() {
                            assert(store@.events == before.events.push(store@.events.last()));
                            lemma_last_event_push(before.events, store@.events.last(), y);
                        } else {
                            assert(store@.events == before.events);
                        }
                        lemma_last_event_of(before.events, y);
                        let l = last_event_of(before.events, y);
                        assert(propagation_done(p, old_m.edges, old_m.events, before.events, done, y));
                        assert(next.contains(y) == done.contains(y));
                        if l >= 0 {
                            assert(store@.events[l] == before.events[l]);
                        }
                    }
                }
            }
        }
        k = k + 1;
    }
    proof {
        assert(targets@.subrange(0, targets@.len() as int) =~= targets@);
    }
}

/// Starts a new attempt at building `build`'s derivation, with a copy of its metadata, and
/// makes the new attempt buildable. Returns false, and leaves the store as it was, where the
/// store holds no metadata for `build` or the derivation has used up its attempt numbers.
pub fn retry(store: &mut Store, build: &DrvBuildId) -> (r: bool)
    requires
        old(store).wf(),
    ensures
        final(store).wf(),
        final(store)@.drvs == old(store)@.drvs,
        final(store)@.edges == old(store)@.edges,
        old(store)@.builds.is_prefix_of(final(store)@.builds),
        old(store)@.events.is_prefix_of(final(store)@.events),
        r <==> can_retry(old(store)@.builds, build@),
        r ==> exists|i: int|
            0 <= i < old(store)@.builds.len() && (#[trigger] old(store)@.builds[i]).derivation == build@.0
                && old(store)@.builds[i].build_attempt == build@.1 && final(store)@.builds == old(store)@.builds.push(
                MetadataView {
                    build_attempt: (attempts_of(old(store)@.builds, build@.0) + 1) as u32,
                    ..old(store)@.builds[i]
                },
            ),
        r && build_is_terminal(
            old(store)@.events,
            build@.0,
            (attempts_of(old(store)@.builds, build@.0) + 1) as u32,
        ) ==> final(store)@.events == old(store)@.events,
        r && !build_is_terminal(
            old(store)@.events,
            build@.0,
            (attempts_of(old(store)@.builds, build@.0) + 1) as u32,
        ) ==> final(store)@.events.len() == old(store)@.events.len() + 1 && final(store)@.events.last().derivation
            == build@.0 && final(store)@.events.last().build_attempt == (attempts_of(old(store)@.builds, build@.0)
            + 1) as u32 && final(store)@.events.last().state == DrvBuildState::Buildable,
        !r ==> final(store)@ == old(store)@,
        forall|i: int|
            old(store)@.events.len() <= i < final(store)@.events.len() ==> #[trigger] final(store)@.events[i].state
                == DrvBuildState::Buildable,
{
    let ghost old_m = store@;
    match store.build_metadata(build) {
        None => false,
        Some(m) => {
            let row = DrvBuildMetadata::for_insert(m.build.derivation, m.git_repo, m.git_commit, m.build_command);
            match store.new_drv_build_metadata(row) {
                Err(_) => false,
                Ok(fresh) => {
                    let ghost mid = store@;
                    proof {
                        assert(old_m.builds.is_prefix_of(mid.builds)) by {
                            assert(mid.builds.subrange(0, old_m.builds.len() as int) =~= old_m.builds);
                        }
                    }
                    let ev = store.new_drv_build_event(DrvBuildEvent::for_insert(fresh.build, DrvBuildState::Buildable));
                    proof {
                        assert(old_m.events.is_prefix_of(store@.events)) by {
                            assert(store@.events.subrange(0, old_m.events.len() as int) =~= old_m.events);
                        }
                    }
                    true
                },
            }
        },
    }
}

/// Records a state change of a build and propagates it: a success to the direct dependants,
/// a failure to every transitive dependant, and an interruption either into a new attempt
/// (where `policy` retries its kind and the build has metadata) or into every transitive
/// dependant as a blocking. The event is refused, and the store left as it was, where the
/// build already reached a terminal state.
pub fn record_event(store: &mut Store, event: ForInsert<DrvBuildEvent>, policy: &RetryPolicy) -> (r: Result<DrvBuildEvent, StoreError>)
    requires
        old(store).wf(),
        event.0.build.build_attempt >= 1,
    ensures
        final(store).wf(),
        r is Err <==> build_is_terminal(old(store)@.events, event.0.build@.0, event.0.build@.1),
        r is Err ==> final(store)@ == old(store)@,
        final(store)@.drvs == old(store)@.drvs,
        final(store)@.edges == old(store)@.edges,
        old(store)@.builds.is_prefix_of(final(store)@.builds),
        r matches Ok(e) ==> e.build@ == event.0.build@ && e.state == event.0.state && old(store)@.events.push(
            e@,
        ).is_prefix_of(final(store)@.events),
        r is Ok && event.0.state == DrvBuildState::Completed(DrvBuildResult::Success) ==> forall|x: Seq<char>|
            #[trigger] propagation_done(
                Propagation::Succeeded,
                old(store)@.edges,
                old(store)@.events.push(r->Ok_0@),
                final(store)@.events,
                direct_dependant_set(old(store)@.edges, event.0.build@.0),
                x,
            ),
        (r is Ok && !(event.0.state is Completed) && !(event.0.state is Interrupted)) ==> final(store)@ == (StoreModel {
            events: old(store)@.events.push(r->Ok_0@),
            ..old(store)@
        }),
        (r is Ok && event.0.state is Interrupted && policy.spec_retries(event.0.state->Interrupted_0) && can_retry(
            old(store)@.builds,
            event.0.build@,
        ) && !build_is_terminal(
            old(store)@.events,
            event.0.build@.0,
            (attempts_of(old(store)@.builds, event.0.build@.0) + 1) as u32,
        )) ==> final(store)@.events.len() == old(store)@.events.len() + 2 && final(store)@.events.last().derivation
            == event.0.build@.0 && final(store)@.events.last().build_attempt == (attempts_of(
            old(store)@.builds,
            event.0.build@.0,
        ) + 1) as u32 && final(store)@.events.last().state == DrvBuildState::Buildable,
        r is Ok && event.0.state is Interrupted ==> forall|i: int|
            old(store)@.events.len() < i < final(store)@.events.len() ==> (#[trigger] final(store)@.events[i].state
                == DrvBuildState::Blocked || final(store)@.events[i].state == DrvBuildState::Buildable),
        r is Ok && event.0.state == DrvBuildState::Completed(DrvBuildResult::Failure) ==> forall|x: Seq<char>|
            #[trigger] propagation_done(
                Propagation::Failed,
                old(store)@.edges,
                old(store)@.events.push(r->Ok_0@),
                final(store)@.events,
                dependant_set(old(store)@.edges, event.0.build@.0),
                x,
            ),
        (r is Ok && event.0.state is Interrupted && policy.spec_retries(event.0.state->Interrupted_0) && can_retry(
            old(store)@.builds,
            event.0.build@,
        )) ==> final(store)@.builds.len() == old(store)@.builds.len() + 1 && final(store)@.builds.last().derivation
            == event.0.build@.0 && final(store)@.builds.last().build_attempt == (attempts_of(
            old(store)@.builds,
            event.0.build@.0,
        ) + 1) as u32,
        (r is Ok && event.0.state is Interrupted && !(policy.spec_retries(event.0.state->Interrupted_0) && can_retry(
            old(store)@.builds,
            event.0.build@,
        ))) ==> final(store)@.builds == old(store)@.builds && forall|x: Seq<char>|
            #[trigger] propagation_done(
                Propagation::Interrupted,
                old(store)@.edges,
                old(store)@.events.push(r->Ok_0@),
                final(store)@.events,
                dependant_set(old(store)@.edges, event.0.build@.0),
                x,
            ),
{
    let drv = event.0.build.derivation.as_str().to_owned();
    let ghost old_m = store@;
    let e = match store.new_drv_build_event(event) {
        Ok(e) => e,
        Err(err) => {
            return Err(err);
        },
    };
    let ghost mid = store@;
    match e.state {
        DrvBuildState::Completed(DrvBuildResult::Success) => {
            let targets = store.dependants(&drv);
            propagate(store, &targets, Propagation::Succeeded);
            proof {
                assert(id_set(ids(targets@)) =~= direct_dependant_set(old_m.edges, drv@));
            }
        },
        DrvBuildState::Completed(DrvBuildResult::Failure) => {
            let targets = store.transitive_dependants(&drv);
            propagate(store, &targets, Propagation::Failed);
            proof {
                assert(id_set(ids(targets@)) =~= dependant_set(old_m.edges, drv@));
            }
        },
        DrvBuildState::Interrupted(kind) => {
            if !(policy.retries(kind) && retry(store, &e.build)) {
                assert(store@ == mid);
                let targets = store.transitive_dependants(&drv);
                propagate(store, &targets, Propagation::Interrupted);
                proof {
                    assert(id_set(ids(targets@)) =~= dependant_set(old_m.edges, drv@));
                }
            }
        },
        _ => {},
    }
    proof {
        assert(old_m.events.push(e@) == mid.events);
        assert(old_m.builds.is_prefix_of(store@.builds)) by {
            assert(store@.builds.subrange(0, old_m.builds.len() as int) =~= old_m.builds);
        }
        assert(mid.events.is_prefix_of(store@.events)) by {
            assert(store@.events.subrange(0, mid.events.len() as int) =~= mid.events);
        }
    }
    Ok(e)
}

/// Recovers from a death of the scheduler. First each derivation whose latest event is
/// `Building` is recorded as interrupted by that death, for the same attempt. Then each such
/// interruption propagates: where `policy` retries a scheduler death and the build can be
/// retried, a new attempt opens and becomes buildable; otherwise every transitive dependant
/// whose state is not terminal ends `Blocked`. Recovery writes no terminal state, and
/// afterwards no derivation's latest event is `Building`.
#[verifier::rlimit(50)]
pub fn recover_interrupted_builds(store: &mut Store, policy: &RetryPolicy)
    requires
        old(store).wf(),
    ensures
        final(store).wf(),
        final(store)@.drvs == old(store)@.drvs,
        final(store)@.edges == old(store)@.edges,
        old(store)@.events.is_prefix_of(final(store)@.events),
        forall|i: int|
            old(store)@.events.len() <= i < final(store)@.events.len() ==> !spec_is_terminal(
                #[trigger] final(store)@.events[i].state,
            ),
        forall|x: Seq<char>|
            #![trigger last_event_of(final(store)@.events, x)]
            last_event_of(final(store)@.events, x) >= 0 ==> final(store)@.events[last_event_of(
                final(store)@.events,
                x,
            )].state != DrvBuildState::Building,
        policy.scheduler_death ==> forall|j: int|
            0 <= j < latest_in_state(old(store)@.events, DrvBuildState::Building, old(store)@.events.len() as int).len()
                && can_retry(
                old(store)@.builds,
                (
                    latest_in_state(old(store)@.events, DrvBuildState::Building, old(store)@.events.len() as int)[j].derivation,
                    latest_in_state(old(store)@.events, DrvBuildState::Building, old(store)@.events.len() as int)[j].build_attempt,
                ),
            ) ==> #[trigger] retried(
                old(store)@.builds,
                old(store)@.events,
                final(store)@.builds,
                final(store)@.events,
                latest_in_state(old(store)@.events, DrvBuildState::Building, old(store)@.events.len() as int)[j],
            ),
        !policy.scheduler_death ==> forall|x: Seq<char>|
            #[trigger] live(old(store)@.events, x) && covered(
                old(store)@.edges,
                latest_in_state(old(store)@.events, DrvBuildState::Building, old(store)@.events.len() as int),
                x,
            ) ==> latest_is(final(store)@.events, x, DrvBuildState::Blocked),
        forall|k: int|
            0 <= k < latest_in_state(old(store)@.events, DrvBuildState::Building, old(store)@.events.len() as int).len()
                ==> #[trigger] interrupted_after(
                final(store)@.events,
                old(store)@.events.len() as int,
                latest_in_state(old(store)@.events, DrvBuildState::Building, old(store)@.events.len() as int)[k],
            ),
{
    let ghost old_m = store@;
    let ghost n0 = old_m.events.len() as int;
    let building = store.get_derivations_in_state(DrvBuildState::Building);
    let ghost l = latest_in_state(old_m.events, DrvBuildState::Building, n0);
    proof {
        assert(old_m.events.subrange(0, n0) =~= old_m.events);
        store.lemma_terminal_sticky();
        store.lemma_attempts_positive();
    }
    let ghost ps = lemma_latest_in_state(old_m.events, DrvBuildState::Building, n0);
    let mut i: usize = 0;
    while i < building.len()
        invariant
            store.wf(),
            i <= building.len(),
            building@.map_values(|e: DrvBuildEvent| e@) == l,
            store@.drvs == old_m.drvs,
            store@.edges == old_m.edges,
            old_m.events.is_prefix_of(store@.events),
            store@.builds == old_m.builds,
            forall|j: int| n0 <= j < store@.events.len() ==> #[trigger] store@.events[j].state == DrvBuildState::Interrupted(
                DrvBuildInterruptionKind::SchedulerDeath,
            ),
            forall|k: int| 0 <= k < i ==> #[trigger] interrupted_after(store@.events, n0, l[k]),
            ps.len() == l.len(),
            forall|k: int|
                0 <= k < ps.len() ==> 0 <= #[trigger] ps[k] < n0 && old_m.events[ps[k]] == l[k] && is_latest(
                    old_m.events,
                    ps[k],
                ) && old_m.events[ps[k]].state == DrvBuildState::Building,
            forall|a: int, b: int|
                0 <= a < b < n0 && same_build(#[trigger] old_m.events[a], #[trigger] old_m.events[b]) ==> !spec_is_terminal(
                    old_m.events[a].state,
                ),
            forall|a: int| 0 <= a < n0 ==> (#[trigger] old_m.events[a]).build_attempt >= 1,
            n0 == old_m.events.len(),
        decreases building.len() - i,
    {
        let ghost before = store@;
        let ghost target = l[i as int];
        proof {
            assert(building@[i as int]@ == target);
            assert(target == l[i as int]);
            let p = ps[i as int];
            assert(old_m.events[p].build_attempt >= 1);
            assert(!build_is_terminal(before.events, target.derivation, target.build_attempt)) by {
                if build_is_terminal(before.events, target.derivation, target.build_attempt) {
                    let j = choose|j: int|
                        0 <= j < before.events.len() && (#[trigger] before.events[j]).derivation == target.derivation
                            && before.events[j].build_attempt == target.build_attempt && spec_is_terminal(
                            before.events[j].state,
                        );
                    if j < n0 {
                        assert(before.events[j] == before.events.subrange(0, n0)[j]);
                        assert(before.events[j] == old_m.events[j]);
                        if j < p {
                            assert(same_build(old_m.events[j], old_m.events[p]));
                        } else if j > p {
                            assert(old_m.events[j].derivation != old_m.events[p].derivation);
                        }
                    }
                }
            }
        }
        let interrupted = DrvBuildEvent::for_insert(
            building[i].build.duplicate(),
            DrvBuildState::Interrupted(DrvBuildInterruptionKind::SchedulerDeath),
        );
        let r = store.new_drv_build_event(interrupted);
        proof {
            assert(r is Ok);
            let e = r->Ok_0@;
            let pushed = before.events.push(e);
            assert(store@.events == pushed);
            assert(pushed.is_prefix_of(store@.events)) by {
                assert(store@.events.subrange(0, pushed.len() as int) =~= pushed);
            }
            let w = before.events.len() as int;
            assert(store@.events[w] == pushed[w]);
            assert(pushed[w] == e);
            assert(e.derivation == target.derivation && e.build_attempt == target.build_attempt);
            assert(store@.events[w].derivation == target.derivation);
            assert(interrupted_after(store@.events, n0, target));
            assert(store@.events.subrange(0, n0) =~= old_m.events) by {
                assert(store@.events.subrange(0, before.events.len() as int) =~= pushed.subrange(0, before.events.len() as int));
                assert(before.events.subrange(0, n0) =~= old_m.events);
            }
            assert forall|j: int| n0 <= j < store@.events.len() implies #[trigger] store@.events[j].state
                == DrvBuildState::Interrupted(DrvBuildInterruptionKind::SchedulerDeath) by {
                if j < before.events.len() {
                    assert(store@.events[j] == pushed[j]);
                    assert(pushed[j] == before.events[j]);
                } else if j == before.events.len() {
                }
            }
            assert forall|k: int| 0 <= k < i + 1 implies #[trigger] interrupted_after(store@.events, n0, l[k]) by {
                if k < i {
                    assert(interrupted_after(before.events, n0, l[k]));
                    let w = choose|w: int|
                        n0 <= w < before.events.len() && #[trigger] before.events[w].derivation == l[k].derivation
                            && before.events[w].build_attempt == l[k].build_attempt && before.events[w].state
                            == DrvBuildState::Interrupted(DrvBuildInterruptionKind::SchedulerDeath);
                    assert(store@.events[w] == pushed[w]);
                    assert(pushed[w] == before.events[w]);
                }
            }
        }
        i = i + 1;
    }
    let ghost e1 = store@.events;
    proof {
        assert(i == building.len());
        assert(l.len() == building@.len());
        assert(e1.subrange(0, e1.len() as int) =~= e1);
        assert forall|x: Seq<char>| #[trigger] live(old_m.events, x) && covered_upto(old_m.edges, l, 0, x) implies latest_is(
            store@.events,
            x,
            DrvBuildState::Blocked,
        ) by {}
        let ps2 = lemma_latest_in_state(old_m.events, DrvBuildState::Building, n0);
        assert forall|a: int, b: int| 0 <= a < l.len() && 0 <= b < l.len() && a != b implies (#[trigger] l[a]).derivation
            != (#[trigger] l[b]).derivation by {
            if a < b {
                assert(latest_in_state(old_m.events, DrvBuildState::Building, n0)[a].derivation != latest_in_state(
                    old_m.events,
                    DrvBuildState::Building,
                    n0,
                )[b].derivation);
            } else {
                assert(latest_in_state(old_m.events, DrvBuildState::Building, n0)[b].derivation != latest_in_state(
                    old_m.events,
                    DrvBuildState::Building,
                    n0,
                )[a].derivation);
            }
        }
        assert(old_m.builds.is_prefix_of(store@.builds)) by {
            assert(store@.builds.subrange(0, old_m.builds.len() as int) =~= old_m.builds);
        }
    }
    let mut k: usize = 0;
    while k < building.len()
        invariant
            store.wf(),
            k <= building.len(),
            building@.map_values(|e: DrvBuildEvent| e@) == l,
            l.len() == building@.len(),
            store@.drvs == old_m.drvs,
            store@.edges == old_m.edges,
            n0 == old_m.events.len(),
            old_m.events.is_prefix_of(e1),
            e1.is_prefix_of(store@.events),
            forall|j: int| n0 <= j < store@.events.len() ==> !spec_is_terminal(#[trigger] store@.events[j].state)
                && store@.events[j].state != DrvBuildState::Building,
            forall|k: int| 0 <= k < l.len() ==> #[trigger] interrupted_after(e1, n0, l[k]),
            forall|a: int, b: int| 0 <= a < l.len() && 0 <= b < l.len() && a != b ==> (#[trigger] l[a]).derivation
                != (#[trigger] l[b]).derivation,
            old_m.builds.is_prefix_of(store@.builds),
            forall|i: int|
                old_m.builds.len() <= i < store@.builds.len() ==> exists|j: int|
                    0 <= j < k && #[trigger] l[j].derivation == (#[trigger] store@.builds[i]).derivation,
            policy.scheduler_death ==> forall|j: int|
                0 <= j < k && can_retry(old_m.builds, (l[j].derivation, l[j].build_attempt)) ==> #[trigger] retried(
                    old_m.builds,
                    old_m.events,
                    store@.builds,
                    store@.events,
                    l[j],
                ),
            !policy.scheduler_death ==> forall|x: Seq<char>|
                #[trigger] live(old_m.events, x) && covered_upto(old_m.edges, l, k as int, x) ==> latest_is(
                    store@.events,
                    x,
                    DrvBuildState::Blocked,
                ),
        decreases building.len() - k,
    {
        let ghost before = store@;
        let d = building[k].build.derivation.as_str().to_owned();
        proof {
            assert(building@[k as int]@ == l[k as int]);
            assert(d@ == l[k as int].derivation);
            assert forall|i: int| old_m.builds.len() <= i < before.builds.len() implies (#[trigger] before.builds[i]).derivation
                != d@ by {
                let j = choose|j: int| 0 <= j < k && #[trigger] l[j].derivation == before.builds[i].derivation;
                assert(l[j].derivation != l[k as int].derivation);
            }
            lemma_attempts_other(old_m.builds, before.builds, d@);
            if can_retry(old_m.builds, (l[k as int].derivation, l[k as int].build_attempt)) {
                let i0 = choose|i0: int|
                    0 <= i0 < old_m.builds.len() && (#[trigger] old_m.builds[i0]).derivation == l[k as int].derivation
                        && old_m.builds[i0].build_attempt == l[k as int].build_attempt;
                assert(before.builds[i0] == before.builds.subrange(0, old_m.builds.len() as int)[i0]);
                assert(can_retry(before.builds, building@[k as int].build@));
            }
        }
        if !(policy.retries(DrvBuildInterruptionKind::SchedulerDeath) && retry(store, &building[k].build)) {
            let targets = store.transitive_dependants(&d);
            propagate(store, &targets, Propagation::Interrupted);
            proof {
                assert forall|x: Seq<char>|
                    #[trigger] live(old_m.events, x) && covered_upto(old_m.edges, l, k + 1, x) && !policy.scheduler_death
                        implies latest_is(store@.events, x, DrvBuildState::Blocked) by {
                    assert(old_m.events.is_prefix_of(before.events)) by {
                        assert(before.events.subrange(0, e1.len() as int) =~= e1);
                        assert(e1.subrange(0, n0) =~= old_m.events);
                        assert(before.events.subrange(0, n0) =~= old_m.events);
                    }
                    assert(propagation_done(
                        Propagation::Interrupted,
                        before.edges,
                        before.events,
                        store@.events,
                        id_set(ids(targets@)),
                        x,
                    ));
                    lemma_block_step(old_m.events, before.events, store@.events, old_m.edges, l, k as int, id_set(ids(targets@)), x);
                }
            }
        }
        proof {
            let na = (attempts_of(old_m.builds, d@) + 1) as u32;
            assert(before.builds.is_prefix_of(store@.builds));
            assert(before.events.is_prefix_of(store@.events));
            assert(old_m.builds.is_prefix_of(store@.builds)) by {
                assert(store@.builds.subrange(0, before.builds.len() as int) =~= before.builds);
                assert(before.builds.subrange(0, old_m.builds.len() as int) =~= old_m.builds);
                assert(store@.builds.subrange(0, old_m.builds.len() as int) =~= old_m.builds);
            }
            assert forall|i: int| old_m.builds.len() <= i < store@.builds.len() implies exists|j: int|
                0 <= j < k + 1 && #[trigger] l[j].derivation == (#[trigger] store@.builds[i]).derivation by {
                if i < before.builds.len() {
                    assert(store@.builds.subrange(0, before.builds.len() as int) =~= before.builds);
                    assert(store@.builds[i] == before.builds[i]);
                    let j = choose|j: int| 0 <= j < k && #[trigger] l[j].derivation == before.builds[i].derivation;
                    assert(l[j].derivation == store@.builds[i].derivation);
                } else {
                    assert(store@.builds[i].derivation == d@);
                    assert(l[k as int].derivation == store@.builds[i].derivation);
                }
            }
            if policy.scheduler_death {
                assert forall|j: int|
                    0 <= j < k + 1 && can_retry(old_m.builds, (l[j].derivation, l[j].build_attempt)) implies #[trigger] retried(
                        old_m.builds,
                        old_m.events,
                        store@.builds,
                        store@.events,
                        l[j],
                    ) by {
                    if j < k {
                        assert(retried(old_m.builds, old_m.events, before.builds, before.events, l[j]));
                        let nj = (attempts_of(old_m.builds, l[j].derivation) + 1) as u32;
                        let i = choose|i: int|
                            old_m.builds.len() <= i < before.builds.len() && (#[trigger] before.builds[i]).derivation
                                == l[j].derivation && before.builds[i].build_attempt == nj;
                        assert(store@.builds.subrange(0, before.builds.len() as int) =~= before.builds);
                        assert(store@.builds[i] == before.builds[i]);
                        if !build_is_terminal(old_m.events, l[j].derivation, nj) {
                            let w = choose|w: int|
                                old_m.events.len() <= w < before.events.len() && (#[trigger] before.events[w]).derivation
                                    == l[j].derivation && before.events[w].build_attempt == nj && before.events[w].state
                                    == DrvBuildState::Buildable;
                            assert(store@.events.subrange(0, before.events.len() as int) =~= before.events);
                            assert(store@.events[w] == before.events[w]);
                        }
                    } else {
                        assert(store@.builds.len() == before.builds.len() + 1);
                        let ib = before.builds.len() as int;
                        assert(store@.builds[ib].derivation == d@);
                        assert(store@.builds[ib].build_attempt == na);
                        if !build_is_terminal(old_m.events, d@, na) {
                            assert(!build_is_terminal(before.events, d@, na)) by {
                                if build_is_terminal(before.events, d@, na) {
                                    let t = choose|t: int|
                                        0 <= t < before.events.len() && (#[trigger] before.events[t]).derivation == d@
                                            && before.events[t].build_attempt == na && spec_is_terminal(before.events[t].state);
                                    if t < n0 {
                                        assert(before.events.subrange(0, n0) =~= old_m.events) by {
                                            assert(before.events.subrange(0, e1.len() as int) =~= e1);
                                            assert(e1.subrange(0, n0) =~= old_m.events);
                                        }
                                        assert(before.events[t] == before.events.subrange(0, n0)[t]);
                                    }
                                }
                            }
                            let w = store@.events.len() - 1;
                            assert(store@.events[w].derivation == d@);
                        }
                    }
                }
            }
            assert(e1.is_prefix_of(store@.events)) by {
                assert(store@.events.subrange(0, before.events.len() as int) =~= before.events);
                assert(store@.events.subrange(0, e1.len() as int) =~= e1);
            }
            assert forall|j: int| n0 <= j < store@.events.len() implies !spec_is_terminal(#[trigger] store@.events[j].state)
                && store@.events[j].state != DrvBuildState::Building by {
                if j < before.events.len() {
                    assert(store@.events.subrange(0, before.events.len() as int) =~= before.events);
                    assert(store@.events[j] == before.events[j]);
                }
            }
        }
        k = k + 1;
    }
    proof {
        assert(old_m.events.is_prefix_of(store@.events)) by {
            assert(store@.events.subrange(0, e1.len() as int) =~= e1);
            assert(e1.subrange(0, n0) =~= old_m.events);
            assert(store@.events.subrange(0, n0) =~= old_m.events);
        }
        let fe = store@.events;
        assert forall|kk: int| 0 <= kk < l.len() implies #[trigger] interrupted_after(fe, n0, l[kk]) by {
            assert(interrupted_after(e1, n0, l[kk]));
            let w = choose|w: int|
                n0 <= w < e1.len() && #[trigger] e1[w].derivation == l[kk].derivation && e1[w].build_attempt
                    == l[kk].build_attempt && e1[w].state == DrvBuildState::Interrupted(
                    DrvBuildInterruptionKind::SchedulerDeath,
                );
            assert(fe.subrange(0, e1.len() as int) =~= e1);
            assert(fe[w] == e1[w]);
        }
        if !policy.scheduler_death {
            assert forall|x: Seq<char>|
                #[trigger] live(old_m.events, x) && covered(old_m.edges, l, x) implies latest_is(
                fe,
                x,
                DrvBuildState::Blocked,
            ) by {
                assert(covered_upto(old_m.edges, l, l.len() as int, x));
            }
        }
        assert forall|x: Seq<char>|
            #![trigger last_event_of(fe, x)]
            last_event_of(fe, x) >= 0 implies fe[last_event_of(fe, x)].state != DrvBuildState::Building by {
            let lf = last_event_of(fe, x);
            lemma_last_event_of(fe, x);
            if lf < n0 && fe[lf].state == DrvBuildState::Building {
                assert(fe.subrange(0, n0) =~= old_m.events);
                assert(fe[lf] == fe.subrange(0, n0)[lf]);
                assert(fe[lf] == old_m.events[lf]);
                assert(is_latest(old_m.events, lf)) by {
                    assert forall|j: int| lf < j < old_m.events.len() implies (#[trigger] old_m.events[j]).derivation
                        != old_m.events[lf].derivation by {
                        assert(fe[j] == old_m.events[j]);
                    }
                }
                lemma_latest_in_state_complete(old_m.events, DrvBuildState::Building, n0, lf);
                let k = choose|k: int| 0 <= k < l.len() && l[k] == old_m.events[lf];
                assert(interrupted_after(fe, n0, l[k]));
                let w = choose|w: int|
                    n0 <= w < fe.len() && #[trigger] fe[w].derivation == l[k].derivation && fe[w].build_attempt
                        == l[k].build_attempt && fe[w].state == DrvBuildState::Interrupted(
                        DrvBuildInterruptionKind::SchedulerDeath,
                    );
                assert(fe[w].derivation == x);
            }
        }
    }
}

/// Build `e` was retried: a new metadata row opens the next attempt of its derivation, and
/// that attempt became buildable (unless an earlier event had already ended it).
pub open spec fn retried(
    old_builds: Seq<MetadataView>,
    old_events: Seq<EventView>,
    builds: Seq<MetadataView>,
    events: Seq<EventView>,
    e: EventView,
) -> bool {
    let na = (attempts_of(old_builds, e.derivation) + 1) as u32;
    &&& exists|i: int|
        old_builds.len() <= i < builds.len() && (#[trigger] builds[i]).derivation == e.derivation
            && builds[i].build_attempt == na
    &&& (build_is_terminal(old_events, e.derivation, na) || exists|w: int|
        old_events.len() <= w < events.len() && (#[trigger] events[w]).derivation == e.derivation
            && events[w].build_attempt == na && events[w].state == DrvBuildState::Buildable)
}

/// The latest event of `x` exists and is not terminal.
pub open spec fn live(events: Seq<EventView>, x: Seq<char>) -> bool {
    last_event_of(events, x) >= 0 && !spec_is_terminal(events[last_event_of(events, x)].state)
}

/// The latest event of `x` exists and is in `s`.
pub open spec fn latest_is(events: Seq<EventView>, x: Seq<char>, s: DrvBuildState) -> bool {
    last_event_of(events, x) >= 0 && events[last_event_of(events, x)].state == s
}

/// `x` depends on the derivation of one of the first `n` events of `l`.
pub open spec fn covered_upto(edges: Seq<(Seq<char>, Seq<char>)>, l: Seq<EventView>, n: int, x: Seq<char>) -> bool {
    exists|j: int| 0 <= j < n && j < l.len() && reaches(edges, x, #[trigger] l[j].derivation)
}

/// `x` depends on the derivation of one of the events of `l`.
pub open spec fn covered(edges: Seq<(Seq<char>, Seq<char>)>, l: Seq<EventView>, x: Seq<char>) -> bool {
    exists|j: int| 0 <= j < l.len() && reaches(edges, x, #[trigger] l[j].derivation)
}

/// One blocking propagation, from the `k`-th interrupted derivation, keeps blocked what was
/// blocked and blocks its live transitive dependants.
#[verifier::rlimit(50)]
#[verifier::spinoff_prover]
proof fn lemma_block_step(
    old: Seq<EventView>,
    before: Seq<EventView>,
    cur: Seq<EventView>,
    edges: Seq<(Seq<char>, Seq<char>)>,
    l: Seq<EventView>,
    k: int,
    members: Set<Seq<char>>,
    x: Seq<char>,
)
    requires
        0 <= k < l.len(),
        old.is_prefix_of(before),
        before.is_prefix_of(cur),
        forall|j: int| old.len() <= j < before.len() ==> !spec_is_terminal(#[trigger] before[j].state),
        live(old, x),
        covered_upto(edges, l, k + 1, x),
        forall|y: Seq<char>| members.contains(y) <==> reaches(edges, y, l[k].derivation),
        propagation_done(Propagation::Interrupted, edges, before, cur, members, x),
        covered_upto(edges, l, k, x) ==> latest_is(before, x, DrvBuildState::Blocked),
    ensures
        latest_is(cur, x, DrvBuildState::Blocked),
{
    lemma_live_stays(old, before, x);
    lemma_last_event_of(before, x);
    let lb = last_event_of(before, x);
    let lc = last_event_of(cur, x);
    if lc == lb {
        assert(cur[lb] == cur.subrange(0, before.len() as int)[lb]);
        assert(cur[lc] == before[lb]);
    }
    if !covered_upto(edges, l, k, x) {
        let j = choose|j: int| 0 <= j < k + 1 && j < l.len() && reaches(edges, x, #[trigger] l[j].derivation);
        assert(j == k);
        assert(members.contains(x));
    }
}

/// A derivation whose latest event is not terminal stays so while only events that are not
/// terminal are appended.
proof fn lemma_live_stays(old: Seq<EventView>, cur: Seq<EventView>, x: Seq<char>)
    requires
        old.is_prefix_of(cur),
        forall|j: int| old.len() <= j < cur.len() ==> !spec_is_terminal(#[trigger] cur[j].state),
        live(old, x),
    ensures
        live(cur, x),
{
    lemma_last_event_of(old, x);
    lemma_last_event_of(cur, x);
    let lo = last_event_of(old, x);
    let lc = last_event_of(cur, x);
    assert(cur[lo] == cur.subrange(0, old.len() as int)[lo]);
    assert(cur[lo] == old[lo]);
    if lc < old.len() {
        if lc < lo {
            assert(cur[lo].derivation == x);
        } else if lc > lo {
            assert(cur[lc] == cur.subrange(0, old.len() as int)[lc]);
            assert(old[lc].derivation == x);
        }
    }
}

/// Some event from position `from` on interrupts the build of `e` through a scheduler death.
pub open spec fn interrupted_after(events: Seq<EventView>, from: int, e: EventView) -> bool {
    exists|w: int|
        from <= w < events.len() && #[trigger] events[w].derivation == e.derivation && events[w].build_attempt
            == e.build_attempt && events[w].state == DrvBuildState::Interrupted(DrvBuildInterruptionKind::SchedulerDeath)
}

} // verus!
