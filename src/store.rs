//! The store: derivations, dependency edges, build metadata and build events.
//!
//! Every write either applies whole or leaves the store as it was, as a transaction would.
use vstd::prelude::*;

use crate::attempt::{spec_is_terminal, DrvBuildEvent, DrvBuildId, DrvBuildMetadata, DrvBuildState, EventView, ForInsert, MetadataView};
use crate::drv::{spec_strip_store_prefix, strip_store_prefix, Drv, DrvId};

verus! {

/// The identifiers that a list of strings holds.
pub open spec fn ids(v: Seq<String>) -> Seq<Seq<char>> {
    v.map_values(|x: String| x@)
}

/// A dependency graph as handed to the store: each derivation with its direct references.
pub open spec fn graph_view(g: Seq<(String, Vec<String>)>) -> Seq<(Seq<char>, Seq<Seq<char>>)> {
    g.map_values(|e: (String, Vec<String>)| (e.0@, ids(e.1@)))
}

pub open spec fn edge_view(e: (String, String)) -> (Seq<char>, Seq<char>) {
    (e.0@, e.1@)
}

/// `r` orders the edges: each referrer ranks above each of its references.
pub open spec fn is_ranking(edges: Seq<(Seq<char>, Seq<char>)>, r: spec_fn(Seq<char>) -> int) -> bool {
    forall|i: int| 0 <= i < edges.len() ==> r(#[trigger] edges[i].0) > r(edges[i].1)
}

/// A finite edge relation is acyclic exactly when some ranking orders it.
pub open spec fn acyclic(edges: Seq<(Seq<char>, Seq<char>)>) -> bool {
    exists|r: spec_fn(Seq<char>) -> int| is_ranking(edges, r)
}

/// `p` is a walk of at least one edge.
pub open spec fn is_path(edges: Seq<(Seq<char>, Seq<char>)>, p: Seq<Seq<char>>) -> bool {
    &&& p.len() >= 2
    &&& forall|i: int| 1 <= i < p.len() ==> edges.contains((p[i - 1], #[trigger] p[i]))
}

/// The derivations that a graph adds to a store that holds `old`, in order of first mention.
pub open spec fn spec_new_ids(old: Seq<Seq<char>>, g: Seq<(Seq<char>, Seq<Seq<char>>)>) -> Seq<
    Seq<char>,
>
    decreases g.len(),
{
    if g.len() == 0 {
        seq![]
    } else {
        let prev = spec_new_ids(old, g.drop_last());
        let k = spec_strip_store_prefix(g.last().0);
        if old.contains(k) || prev.contains(k) {
            prev
        } else {
            prev.push(k)
        }
    }
}

/// `edges` with an edge from `k` to each of `refs` that neither `old` nor `edges` holds yet.
pub open spec fn add_refs(
    old: Seq<(Seq<char>, Seq<char>)>,
    edges: Seq<(Seq<char>, Seq<char>)>,
    k: Seq<char>,
    refs: Seq<Seq<char>>,
) -> Seq<(Seq<char>, Seq<char>)>
    decreases refs.len(),
{
    if refs.len() == 0 {
        edges
    } else {
        let prev = add_refs(old, edges, k, refs.drop_last());
        let e = (k, spec_strip_store_prefix(refs.last()));
        if old.contains(e) || prev.contains(e) {
            prev
        } else {
            prev.push(e)
        }
    }
}

/// The edges that a graph adds to a store that holds the edges `old`: an edge from each key to
/// each of its references, without the store prefix, that is not there yet.
pub open spec fn spec_new_edges(
    old: Seq<(Seq<char>, Seq<char>)>,
    g: Seq<(Seq<char>, Seq<Seq<char>>)>,
) -> Seq<(Seq<char>, Seq<char>)>
    decreases g.len(),
{
    if g.len() == 0 {
        seq![]
    } else {
        let prev = spec_new_edges(old, g.drop_last());
        add_refs(old, prev, spec_strip_store_prefix(g.last().0), g.last().1)
    }
}

pub open spec fn edges_of(v: Seq<(String, String)>) -> Seq<(Seq<char>, Seq<char>)> {
    v.map_values(|e: (String, String)| edge_view(e))
}

/// Some edge of `new_edges` points to a derivation that neither `old` nor `new_ids` holds.
pub open spec fn has_missing_reference(
    old: Seq<Seq<char>>,
    new_ids: Seq<Seq<char>>,
    new_edges: Seq<(Seq<char>, Seq<char>)>,
) -> bool {
    exists|i: int|
        0 <= i < new_edges.len() && !old.contains(#[trigger] new_edges[i].1) && !new_ids.contains(
            new_edges[i].1,
        )
}

/// The `j`-th of `ids` for some `j` that `a` marks.
pub open spec fn assigned_id(ids: Seq<Seq<char>>, a: Seq<bool>, x: Seq<char>) -> bool {
    exists|j: int| 0 <= j < ids.len() && j < a.len() && #[trigger] ids[j] == x && a[j]
}

/// Each edge from `src` points into `old` or to a marked one of `ids`.
pub open spec fn ready_spec(
    old: Seq<Seq<char>>,
    ids: Seq<Seq<char>>,
    a: Seq<bool>,
    ne: Seq<(Seq<char>, Seq<char>)>,
    src: Seq<char>,
) -> bool {
    forall|k: int|
        0 <= k < ne.len() && (#[trigger] ne[k]).0 == src ==> old.contains(ne[k].1) || assigned_id(
            ids,
            a,
            ne[k].1,
        )
}

pub open spec fn count_true(s: Seq<bool>) -> nat
    decreases s.len(),
{
    if s.len() == 0 {
        0
    } else {
        count_true(s.drop_last()) + if s.last() {
            1nat
        } else {
            0nat
        }
    }
}

proof fn lemma_count_true(s: Seq<bool>)
    ensures
        count_true(s) <= s.len(),
        count_true(s) == s.len() ==> forall|i: int| 0 <= i < s.len() ==> s[i],
    decreases s.len(),
{
    if s.len() > 0 {
        lemma_count_true(s.drop_last());
        assert forall|i: int| 0 <= i < s.len() && count_true(s) == s.len() implies s[i] by {
            if i < s.len() - 1 {
                assert(s.drop_last()[i] == s[i]);
            }
        }
    }
}

proof fn lemma_count_false(s: Seq<bool>)
    requires
        forall|i: int| 0 <= i < s.len() ==> !s[i],
    ensures
        count_true(s) == 0,
    decreases s.len(),
{
    if s.len() > 0 {
        lemma_count_false(s.drop_last());
    }
}

proof fn lemma_count_all_true(s: Seq<bool>)
    requires
        forall|i: int| 0 <= i < s.len() ==> s[i],
    ensures
        count_true(s) == s.len(),
    decreases s.len(),
{
    if s.len() > 0 {
        lemma_count_all_true(s.drop_last());
    }
}

proof fn lemma_count_true_set(s: Seq<bool>, i: int)
    requires
        0 <= i < s.len(),
        !s[i],
    ensures
        count_true(s.update(i, true)) == count_true(s) + 1,
    decreases s.len(),
{
    let t = s.update(i, true);
    if i == s.len() - 1 {
        assert(t.drop_last() =~= s.drop_last());
    } else {
        lemma_count_true_set(s.drop_last(), i);
        assert(t.drop_last() =~= s.drop_last().update(i, true));
    }
}

/// An unmarked index whose id ranks lowest under `r` among the unmarked ones below `k`.
proof fn lemma_min_unassigned(ids: Seq<Seq<char>>, a: Seq<bool>, r: spec_fn(Seq<char>) -> int, k: int) -> (m: int)
    requires
        0 <= k <= a.len() == ids.len(),
        exists|j: int| 0 <= j < k && !a[j],
    ensures
        0 <= m < k,
        !a[m],
        forall|j: int| 0 <= j < k && !a[j] ==> r(ids[m]) <= r(ids[j]),
    decreases k,
{
    if exists|j: int| 0 <= j < k - 1 && !a[j] {
        let m0 = lemma_min_unassigned(ids, a, r, k - 1);
        if !a[k - 1] && r(ids[k - 1]) < r(ids[m0]) {
            k - 1
        } else {
            m0
        }
    } else {
        k - 1
    }
}

/// Where every one of `ids` that `a` leaves unmarked has an edge to another unmarked one, no
/// ranking orders the edges.
proof fn lemma_unranked_cycle(
    edges: Seq<(Seq<char>, Seq<char>)>,
    ids: Seq<Seq<char>>,
    a: Seq<bool>,
    r: spec_fn(Seq<char>) -> int,
)
    requires
        a.len() == ids.len(),
        exists|j: int| 0 <= j < a.len() && !a[j],
        forall|i: int|
            0 <= i < a.len() && !a[i] ==> exists|k: int, j: int|
                0 <= k < edges.len() && 0 <= j < a.len() && !a[j] && #[trigger] edges[k] == (
                    ids[i],
                    #[trigger] ids[j],
                ),
    ensures
        !is_ranking(edges, r),
{
    let m = lemma_min_unassigned(ids, a, r, a.len() as int);
    let (k, j) = choose|k: int, j: int|
        0 <= k < edges.len() && 0 <= j < a.len() && !a[j] && #[trigger] edges[k] == (
            ids[m],
            #[trigger] ids[j],
        );
    assert(edges[k].0 == ids[m]);
}

pub open spec fn same_build(a: EventView, b: EventView) -> bool {
    a.derivation == b.derivation && a.build_attempt == b.build_attempt
}

/// How many metadata rows `builds` holds for derivation `d`.
pub open spec fn attempts_of(builds: Seq<MetadataView>, d: Seq<char>) -> nat
    decreases builds.len(),
{
    if builds.len() == 0 {
        0
    } else {
        attempts_of(builds.drop_last(), d) + if builds.last().derivation == d {
            1nat
        } else {
            0nat
        }
    }
}

/// Whether some event of build `(d, a)` has a terminal state.
pub open spec fn build_is_terminal(events: Seq<EventView>, d: Seq<char>, a: u32) -> bool {
    exists|i: int|
        0 <= i < events.len() && (#[trigger] events[i]).derivation == d && events[i].build_attempt == a
            && spec_is_terminal(events[i].state)
}

/// The position of the latest event of derivation `d`, or -1.
pub open spec fn last_event_of(events: Seq<EventView>, d: Seq<char>) -> int
    decreases events.len(),
{
    if events.len() == 0 {
        -1
    } else if events.last().derivation == d {
        events.len() - 1
    } else {
        last_event_of(events.drop_last(), d)
    }
}

/// Event `k` is the latest of its derivation.
pub open spec fn is_latest(events: Seq<EventView>, k: int) -> bool {
    forall|j: int| k < j < events.len() ==> (#[trigger] events[j]).derivation != events[k].derivation
}

/// Among the first `n` events, those that are the latest of their derivation and in `s`.
pub open spec fn latest_in_state(events: Seq<EventView>, s: DrvBuildState, n: int) -> Seq<EventView>
    decreases n,
{
    if n <= 0 {
        seq![]
    } else {
        let prev = latest_in_state(events, s, n - 1);
        if is_latest(events, n - 1) && events[n - 1].state == s {
            prev.push(events[n - 1])
        } else {
            prev
        }
    }
}

/// Relies on `std::time::SystemTime::elapsed`, measured from `UNIX_EPOCH`: the whole seconds
/// since the Unix epoch, or `None` where the clock reads earlier than it. It does not panic.
#[verifier::external_body]
fn seconds_since_epoch() -> (r: Option<u64>) {
    std::time::UNIX_EPOCH.elapsed().ok().map(|d| d.as_secs())
}

/// The `i`-th metadata row of a derivation is its `i`-th attempt.
#[verifier::opaque]
pub open spec fn attempts_dense(builds: Seq<MetadataView>) -> bool {
    forall|i: int|
        0 <= i < builds.len() ==> (#[trigger] builds[i]).build_attempt == attempts_of(
            builds.subrange(0, i + 1),
            builds[i].derivation,
        )
}

/// No event follows a terminal event of the same build.
#[verifier::opaque]
pub open spec fn terminal_sticky(events: Seq<EventView>) -> bool {
    forall|i: int, j: int|
        0 <= i < j < events.len() && same_build(#[trigger] events[i], #[trigger] events[j])
            ==> !spec_is_terminal(events[i].state)
}

/// `x` depends on `d`, directly or through other derivations.
pub open spec fn reaches(edges: Seq<(Seq<char>, Seq<char>)>, x: Seq<char>, d: Seq<char>) -> bool {
    exists|p: Seq<Seq<char>>| #[trigger] is_path(edges, p) && p[0] == x && p[p.len() - 1] == d
}

/// Each unmarked derivation has no edge to `d` nor to a marked derivation.
pub open spec fn closed_marks(
    edges: Seq<(Seq<char>, Seq<char>)>,
    drvs: Seq<Seq<char>>,
    a: Seq<bool>,
    d: Seq<char>,
) -> bool {
    forall|i: int, k: int|
        0 <= i < drvs.len() && !a[i] && 0 <= k < edges.len() && (#[trigger] edges[k]).0 == (#[trigger] drvs[i]) ==> edges[k].1
            != d && !assigned_id(drvs, a, edges[k].1)
}

/// A path from `y` to `d`, led by an edge from `x` to `y`, is a path from `x` to `d`.
proof fn lemma_extend_path(
    edges: Seq<(Seq<char>, Seq<char>)>,
    x: Seq<char>,
    tail: Seq<Seq<char>>,
) -> (p: Seq<Seq<char>>)
    requires
        tail.len() >= 1,
        tail.len() >= 2 ==> is_path(edges, tail),
        edges.contains((x, tail[0])),
    ensures
        is_path(edges, p),
        p[0] == x,
        p[p.len() - 1] == tail[tail.len() - 1],
{
    let p = seq![x] + tail;
    assert forall|q: int| 1 <= q < p.len() implies edges.contains((p[q - 1], #[trigger] p[q])) by {
        if q == 1 {
            assert(p[1] == tail[0]);
        } else {
            assert(p[q - 1] == tail[q - 2] && p[q] == tail[q - 1]);
            assert(edges.contains((tail[(q - 1) - 1], tail[q - 1])));
        }
    }
    p
}

/// Under closed marks, every derivation with a path to `d` is marked.
proof fn lemma_closed_marks_complete(
    edges: Seq<(Seq<char>, Seq<char>)>,
    drvs: Seq<Seq<char>>,
    a: Seq<bool>,
    d: Seq<char>,
    p: Seq<Seq<char>>,
    k: int,
)
    requires
        a.len() == drvs.len(),
        closed_marks(edges, drvs, a, d),
        is_path(edges, p),
        p[p.len() - 1] == d,
        0 <= k < p.len() - 1,
        forall|t: int| 0 <= t < edges.len() ==> drvs.contains(#[trigger] edges[t].0),
    ensures
        assigned_id(drvs, a, p[k]),
    decreases p.len() - k,
{
    assert(edges.contains((p[k], p[k + 1])));
    let t = choose|t: int| 0 <= t < edges.len() && edges[t] == (p[k], p[k + 1]);
    assert(drvs.contains(edges[t].0));
    let i = choose|i: int| 0 <= i < drvs.len() && drvs[i] == p[k];
    if k + 1 < p.len() - 1 {
        lemma_closed_marks_complete(edges, drvs, a, d, p, k + 1);
    }
    if !a[i] {
        assert(edges[t].0 == drvs[i]);
    }
}

/// Every event belongs to an attempt numbered from 1.
#[verifier::opaque]
pub open spec fn attempts_positive(events: Seq<EventView>) -> bool {
    forall|i: int| 0 <= i < events.len() ==> (#[trigger] events[i]).build_attempt >= 1
}

/// What the store holds, as mathematical values.
pub struct StoreModel {
    /// Derivation identifiers, in order of insertion.
    pub drvs: Seq<Seq<char>>,
    /// The platform of each derivation.
    pub systems: Seq<Seq<char>>,
    /// Dependency edges `(referrer, reference)`.
    pub edges: Seq<(Seq<char>, Seq<char>)>,
    /// Build metadata, one row per attempt, in order of insertion.
    pub builds: Seq<MetadataView>,
    /// Build events, in order of insertion: the position is the row id.
    pub events: Seq<EventView>,
}

impl StoreModel {
    /// Every edge joins two stored derivations.
    pub open spec fn edges_closed(self) -> bool {
        forall|i: int|
            0 <= i < self.edges.len() ==> self.drvs.contains(#[trigger] self.edges[i].0)
                && self.drvs.contains(self.edges[i].1)
    }

    pub open spec fn wf(self) -> bool {
        &&& self.drvs.no_duplicates()
        &&& self.systems.len() == self.drvs.len()
        &&& self.edges.no_duplicates()
        &&& self.edges_closed()
        &&& attempts_dense(self.builds)
        &&& terminal_sticky(self.events)
        &&& attempts_positive(self.events)
    }
}

/// Why the store refused a write.
#[derive(Clone, Copy, Debug, PartialEq, Eq, Structural)]
pub enum StoreError {
    /// An edge would point to a derivation that neither the store nor the write holds.
    MissingReference,
    /// The edges would form a cycle.
    InvariantViolation,
    /// The derivation has used up the attempt numbers.
    AttemptOverflow,
    /// The build is in a terminal state, which no later event may leave.
    TerminalState,
}

pub struct Store {
    drvs: Vec<Drv>,
    refs: Vec<(String, String)>,
    metadata: Vec<DrvBuildMetadata>,
    events: Vec<DrvBuildEvent>,
    rank: Ghost<spec_fn(Seq<char>) -> int>,
    rank_bound: Ghost<int>,
}

impl View for Store {
    type V = StoreModel;

    closed spec fn view(&self) -> StoreModel {
        StoreModel {
            drvs: self.drvs@.map_values(|d: Drv| d.drv_path@),
            systems: self.drvs@.map_values(|d: Drv| d.system@),
            edges: self.refs@.map_values(|e: (String, String)| edge_view(e)),
            builds: self.metadata@.map_values(|m: DrvBuildMetadata| m@),
            events: self.events@.map_values(|e: DrvBuildEvent| e@),
        }
    }
}

/// Ranks `nodes` so that every edge falls, or finds that no ranking of `edges` exists.
fn rank_all(nodes: &Vec<String>, edges: &Vec<(String, String)>) -> (r: (bool, Ghost<spec_fn(Seq<char>) -> int>, Ghost<int>))
    requires
        ids(nodes@).no_duplicates(),
        forall|i: int|
            0 <= i < edges@.len() ==> ids(nodes@).contains(#[trigger] edges_of(edges@)[i].0) && ids(
                nodes@,
            ).contains(edges_of(edges@)[i].1),
    ensures
        r.0 ==> is_ranking(edges_of(edges@), r.1@),
        r.0 ==> forall|d: Seq<char>| #![trigger (r.1@)(d)] ids(nodes@).contains(d) ==> (r.1@)(d) < r.2@,
        !r.0 ==> !acyclic(edges_of(edges@)),
{
    let empty = Store::new();
    proof {
        assert(empty@.drvs =~= Seq::<Seq<char>>::empty());
        assert(empty@.edges =~= Seq::<(Seq<char>, Seq<char>)>::empty());
        assert(empty@.edges + edges_of(edges@) =~= edges_of(edges@));
        assert(!has_missing_reference(empty@.drvs, ids(nodes@), edges_of(edges@))) by {
            if has_missing_reference(empty@.drvs, ids(nodes@), edges_of(edges@)) {
                let i = choose|i: int|
                    0 <= i < edges_of(edges@).len() && !empty@.drvs.contains(#[trigger] edges_of(edges@)[i].1)
                        && !ids(nodes@).contains(edges_of(edges@)[i].1);
                assert(ids(nodes@).contains(edges_of(edges@)[i].0));
            }
        }
    }
    empty.rank_new(nodes, edges)
}

/// Whether `s` is among the identifiers of `v`.
fn contains_id(v: &Vec<String>, s: &String) -> (r: bool)
    ensures
        r == ids(v@).contains(s@),
{
    let mut i: usize = 0;
    while i < v.len()
        invariant
            i <= v.len(),
            forall|j: int| 0 <= j < i ==> v@[j]@ != s@,
        decreases v.len() - i,
    {
        if v[i] == *s {
            assert(ids(v@)[i as int] == s@);
            return true;
        }
        i = i + 1;
    }
    proof {
        if ids(v@).contains(s@) {
            let j = choose|j: int| 0 <= j < ids(v@).len() && ids(v@)[j] == s@;
            assert(v@[j]@ == s@);
        }
    }
    false
}

/// Whether `e` is among `v`.
fn contains_edge(v: &Vec<(String, String)>, a: &String, b: &String) -> (r: bool)
    ensures
        r == v@.map_values(|e: (String, String)| edge_view(e)).contains((a@, b@)),
{
    let ghost m = v@.map_values(|e: (String, String)| edge_view(e));
    let mut i: usize = 0;
    while i < v.len()
        invariant
            i <= v.len(),
            m == v@.map_values(|e: (String, String)| edge_view(e)),
            forall|j: int| 0 <= j < i ==> m[j] != (a@, b@),
        decreases v.len() - i,
    {
        if v[i].0 == *a && v[i].1 == *b {
            assert(m[i as int] == (a@, b@));
            return true;
        }
        i = i + 1;
    }
    false
}

impl Store {
    pub closed spec fn wf(&self) -> bool {
        &&& self@.wf()
        &&& is_ranking(self@.edges, self.rank@)
        &&& forall|i: int|
            0 <= i < self@.drvs.len() ==> (self.rank@)(#[trigger] self@.drvs[i]) < self.rank_bound@
    }

    /// An empty store.
    pub fn new() -> (r: Store)
        ensures
            r.wf(),
            r@.drvs.len() == 0,
            r@.edges.len() == 0,
            r@.builds.len() == 0,
            r@.events.len() == 0,
    {
        let r = Store {
            drvs: Vec::new(),
            refs: Vec::new(),
            metadata: Vec::new(),
            events: Vec::new(),
            rank: Ghost(|d: Seq<char>| 0int),
            rank_bound: Ghost(1int),
        };
        proof {
            assert(r@.drvs =~= Seq::<Seq<char>>::empty());
            assert(r@.edges =~= Seq::<(Seq<char>, Seq<char>)>::empty());
            assert(r@.builds =~= Seq::<MetadataView>::empty());
            assert(r@.events =~= Seq::<EventView>::empty());
            reveal(attempts_dense);
            reveal(terminal_sticky);
            reveal(attempts_positive);
        }
        r
    }

    /// Whether the store holds the identifier `drv_path`, taken as it is.
    pub fn has_id(&self, drv_path: &str) -> (r: bool)
        ensures
            r == self@.drvs.contains(drv_path@),
    {
        let key = drv_path.to_owned();
        let mut i: usize = 0;
        while i < self.drvs.len()
            invariant
                i <= self.drvs.len(),
                key@ == drv_path@,
                forall|j: int| 0 <= j < i ==> self.drvs@[j].drv_path@ != drv_path@,
            decreases self.drvs.len() - i,
        {
            if self.drvs[i].drv_path == key {
                assert(self@.drvs[i as int] == drv_path@);
                return true;
            }
            i = i + 1;
        }
        false
    }

    /// Whether the store holds the derivation `drv_path`, given by identifier or full store
    /// path.
    pub fn has_drv(&self, drv_path: &str) -> (r: bool)
        ensures
            r == self@.drvs.contains(spec_strip_store_prefix(drv_path@)),
    {
        let id = strip_store_prefix(drv_path.to_owned());
        self.has_id(id.as_str())
    }

    /// The derivations and edges that `graph` adds: see `spec_new_ids` and `spec_new_edges`.
    fn collect_new(&self, graph: &Vec<(String, Vec<String>)>) -> (r: (Vec<String>, Vec<(String, String)>))
        requires
            self.wf(),
        ensures
            ids(r.0@) == spec_new_ids(self@.drvs, graph_view(graph@)),
            edges_of(r.1@) == spec_new_edges(self@.edges, graph_view(graph@)),
            ids(r.0@).no_duplicates(),
            forall|i: int| 0 <= i < r.0@.len() ==> !self@.drvs.contains(#[trigger] ids(r.0@)[i]),
            edges_of(r.1@).no_duplicates(),
            forall|i: int|
                0 <= i < r.1@.len() ==> ids(r.0@).contains(#[trigger] edges_of(r.1@)[i].0)
                    || self@.drvs.contains(edges_of(r.1@)[i].0),
            forall|i: int| 0 <= i < r.1@.len() ==> !self@.edges.contains(#[trigger] edges_of(r.1@)[i]),
    {
        let ghost old = self@.drvs;
        let ghost oe = self@.edges;
        let ghost g = graph_view(graph@);
        let mut new_ids: Vec<String> = Vec::new();
        let mut new_edges: Vec<(String, String)> = Vec::new();
        let mut i: usize = 0;
        proof {
            assert(g.subrange(0, 0) =~= Seq::<(Seq<char>, Seq<Seq<char>>)>::empty());
            assert(ids(new_ids@) =~= Seq::<Seq<char>>::empty());
            assert(edges_of(new_edges@) =~= Seq::<(Seq<char>, Seq<char>)>::empty());
        }
        while i < graph.len()
            invariant
                self.wf(),
                old == self@.drvs,
                g == graph_view(graph@),
                i <= graph.len(),
                oe == self@.edges,
                ids(new_ids@) == spec_new_ids(old, g.subrange(0, i as int)),
                edges_of(new_edges@) == spec_new_edges(oe, g.subrange(0, i as int)),
                ids(new_ids@).no_duplicates(),
                forall|j: int| 0 <= j < new_ids@.len() ==> !old.contains(#[trigger] ids(new_ids@)[j]),
                edges_of(new_edges@).no_duplicates(),
                forall|j: int|
                    0 <= j < new_edges@.len() ==> ids(new_ids@).contains(
                        #[trigger] edges_of(new_edges@)[j].0,
                    ) || old.contains(edges_of(new_edges@)[j].0),
                forall|j: int| 0 <= j < new_edges@.len() ==> !oe.contains(#[trigger] edges_of(new_edges@)[j]),
            decreases graph.len() - i,
        {
            let key = strip_store_prefix(graph[i].0.clone());
            let ghost gi = g.subrange(0, i as int + 1);
            proof {
                assert(gi.drop_last() =~= g.subrange(0, i as int));
                assert(gi.last() == g[i as int]);
                assert(g[i as int].0 == graph@[i as int].0@);
            }
            let known = self.has_id(key.as_str());
            if !known && !contains_id(&new_ids, &key) {
                {
                    let ghost before = ids(new_ids@);
                    new_ids.push(key.clone());
                    proof {
                        assert(ids(new_ids@) =~= before.push(key@));
                        assert(ids(new_ids@)[before.len() as int] == key@);
                        assert forall|t: int| 0 <= t < new_edges@.len() implies ids(
                            new_ids@,
                        ).contains(#[trigger] edges_of(new_edges@)[t].0) || old.contains(edges_of(new_edges@)[t].0) by {
                            if before.contains(edges_of(new_edges@)[t].0) {
                                let w = choose|w: int|
                                    0 <= w < before.len() && before[w] == edges_of(new_edges@)[t].0;
                                assert(ids(new_ids@)[w] == before[w]);
                            }
                        }
                    }
                }
            }
            {
                let refs = &graph[i].1;
                let ghost base = edges_of(new_edges@);
                let ghost rv = g[i as int].1;
                proof {
                    assert(rv == ids(refs@));
                    assert(rv.subrange(0, 0) =~= Seq::<Seq<char>>::empty());
                    assert(ids(new_ids@).contains(key@) || old.contains(key@));
                }
                let mut j: usize = 0;
                while j < refs.len()
                    invariant
                        j <= refs.len(),
                        rv == ids(refs@),
                        oe == self@.edges,
                        edges_of(new_edges@) == add_refs(oe, base, key@, rv.subrange(0, j as int)),
                        edges_of(new_edges@).no_duplicates(),
                        ids(new_ids@).contains(key@) || old.contains(key@),
                        forall|t: int|
                            0 <= t < new_edges@.len() ==> ids(new_ids@).contains(
                                #[trigger] edges_of(new_edges@)[t].0,
                            ) || old.contains(edges_of(new_edges@)[t].0),
                        forall|t: int| 0 <= t < new_edges@.len() ==> !oe.contains(#[trigger] edges_of(new_edges@)[t]),
                    decreases refs.len() - j,
                {
                    let target = strip_store_prefix(refs[j].clone());
                    let ghost rj = rv.subrange(0, j as int + 1);
                    proof {
                        assert(rj.drop_last() =~= rv.subrange(0, j as int));
                        assert(rj.last() == refs@[j as int]@);
                    }
                    let present = contains_edge(&self.refs, &key, &target) || contains_edge(&new_edges, &key, &target);
                    if !present {
                        let ghost before = edges_of(new_edges@);
                        new_edges.push((key.clone(), target));
                        proof {
                            assert(edges_of(new_edges@) =~= before.push((key@, spec_strip_store_prefix(rj.last()))));
                        }
                    }
                    j = j + 1;
                }
                proof {
                    assert(rv.subrange(0, refs@.len() as int) =~= rv);
                }
            }
            i = i + 1;
        }
        proof {
            assert(g.subrange(0, graph@.len() as int) =~= g);
        }
        (new_ids, new_edges)
    }

    /// Whether some new edge points to a derivation that neither the store nor `new_ids` holds.
    fn find_missing(&self, new_ids: &Vec<String>, new_edges: &Vec<(String, String)>) -> (r: bool)
        ensures
            r == has_missing_reference(self@.drvs, ids(new_ids@), edges_of(new_edges@)),
    {
        let ghost ne = edges_of(new_edges@);
        let mut k: usize = 0;
        while k < new_edges.len()
            invariant
                k <= new_edges.len(),
                ne == edges_of(new_edges@),
                forall|t: int|
                    0 <= t < k ==> self@.drvs.contains(#[trigger] ne[t].1) || ids(new_ids@).contains(
                        ne[t].1,
                    ),
            decreases new_edges.len() - k,
        {
            let target = &new_edges[k].1;
            if !self.has_id(target.as_str()) && !contains_id(new_ids, target) {
                assert(!self@.drvs.contains(ne[k as int].1) && !ids(new_ids@).contains(ne[k as int].1));
                return true;
            }
            k = k + 1;
        }
        false
    }

    /// The index of `s` among `v`, if it is there.
    fn index_of(v: &Vec<String>, s: &String) -> (r: Option<usize>)
        ensures
            r matches Some(j) ==> j < v@.len() && v@[j as int]@ == s@,
            r is None ==> !ids(v@).contains(s@),
    {
        let mut i: usize = 0;
        while i < v.len()
            invariant
                i <= v.len(),
                forall|j: int| 0 <= j < i ==> v@[j]@ != s@,
            decreases v.len() - i,
        {
            if v[i] == *s {
                return Some(i);
            }
            i = i + 1;
        }
        proof {
            if ids(v@).contains(s@) {
                let j = choose|j: int| 0 <= j < ids(v@).len() && ids(v@)[j] == s@;
                assert(v@[j]@ == s@);
            }
        }
        None
    }

    /// Whether every new edge from `new_ids[i]` points into the store or to a marked new one.
    fn ready(&self, new_ids: &Vec<String>, new_edges: &Vec<(String, String)>, marked: &Vec<bool>, i: usize) -> (r: bool)
        requires
            i < new_ids@.len(),
            marked@.len() == new_ids@.len(),
            ids(new_ids@).no_duplicates(),
        ensures
            r == ready_spec(self@.drvs, ids(new_ids@), marked@, edges_of(new_edges@), ids(new_ids@)[i as int]),
    {
        let ghost ne = edges_of(new_edges@);
        let ghost idv = ids(new_ids@);
        let src = &new_ids[i];
        let mut k: usize = 0;
        while k < new_edges.len()
            invariant
                k <= new_edges.len(),
                i < new_ids@.len(),
                marked@.len() == new_ids@.len(),
                ne == edges_of(new_edges@),
                idv == ids(new_ids@),
                idv.no_duplicates(),
                src@ == idv[i as int],
                forall|t: int|
                    0 <= t < k && (#[trigger] ne[t]).0 == src@ ==> self@.drvs.contains(ne[t].1)
                        || assigned_id(idv, marked@, ne[t].1),
            decreases new_edges.len() - k,
        {
            if new_edges[k].0 == *src {
                let target = &new_edges[k].1;
                if !self.has_id(target.as_str()) {
                    match Self::index_of(new_ids, target) {
                        None => {
                            proof {
                                if assigned_id(idv, marked@, ne[k as int].1) {
                                    let j = choose|j: int|
                                        0 <= j < idv.len() && j < marked@.len() && #[trigger] idv[j]
                                            == ne[k as int].1 && marked@[j];
                                    assert(idv.contains(target@));
                                }
                            }
                            return false;
                        },
                        Some(j) => {
                            if !marked[j] {
                                proof {
                                    if assigned_id(idv, marked@, ne[k as int].1) {
                                        let w = choose|w: int|
                                            0 <= w < idv.len() && w < marked@.len() && #[trigger] idv[w]
                                                == ne[k as int].1 && marked@[w];
                                        assert(idv[j as int] == idv[w]);
                                    }
                                }
                                return false;
                            }
                            assert(idv[j as int] == ne[k as int].1);
                        },
                    }
                }
            }
            k = k + 1;
        }
        true
    }

    /// Ranks the new derivations above everything they reference, or finds that no ranking of
    /// the store's and the new edges exists.
    fn rank_new(&self, new_ids: &Vec<String>, new_edges: &Vec<(String, String)>) -> (r: (
        bool,
        Ghost<spec_fn(Seq<char>) -> int>,
        Ghost<int>,
    ))
        requires
            self.wf(),
            ids(new_ids@).no_duplicates(),
            forall|i: int| 0 <= i < new_ids@.len() ==> !self@.drvs.contains(#[trigger] ids(new_ids@)[i]),
            forall|i: int|
                0 <= i < new_edges@.len() ==> ids(new_ids@).contains(#[trigger] edges_of(new_edges@)[i].0),
            !has_missing_reference(self@.drvs, ids(new_ids@), edges_of(new_edges@)),
        ensures
            r.0 ==> is_ranking(self@.edges + edges_of(new_edges@), r.1@),
            r.0 ==> forall|d: Seq<char>|
                #![trigger (r.1@)(d)]
                (self@.drvs.contains(d) || ids(new_ids@).contains(d)) ==> (r.1@)(d) < r.2@,
            r.0 ==> forall|d: Seq<char>| #![trigger (r.1@)(d)] self@.drvs.contains(d) ==> (r.1@)(d) == (self.rank@)(d),
            !r.0 ==> !acyclic(self@.edges + edges_of(new_edges@)),
    {
        let ghost old = self@.drvs;
        let ghost idv = ids(new_ids@);
        let ghost ne = edges_of(new_edges@);
        let ghost bound = self.rank_bound@;
        let n = new_ids.len();
        let mut marked: Vec<bool> = Vec::new();
        let mut t: usize = 0;
        while t < n
            invariant
                t <= n,
                marked@.len() == t,
                forall|j: int| 0 <= j < t ==> !marked@[j],
            decreases n - t,
        {
            marked.push(false);
            t = t + 1;
        }
        proof {
            assert(count_true(marked@) == 0) by {
                lemma_count_false(marked@);
            }
        }
        let ghost mut rk: spec_fn(Seq<char>) -> int = self.rank@;
        let ghost mut counter: int = bound;
        let mut done: usize = 0;
        loop
            invariant
                self.wf(),
                old == self@.drvs,
                idv == ids(new_ids@),
                ne == edges_of(new_edges@),
                bound == self.rank_bound@,
                n == new_ids@.len(),
                marked@.len() == n,
                done == count_true(marked@),
                done <= n,
                idv.no_duplicates(),
                forall|i: int| 0 <= i < n ==> !old.contains(#[trigger] idv[i]),
                forall|i: int| 0 <= i < ne.len() ==> idv.contains(#[trigger] ne[i].0),
                !has_missing_reference(old, idv, ne),
                counter >= bound,
                forall|d: Seq<char>| #![trigger rk(d)] !assigned_id(idv, marked@, d) ==> rk(d) == (self.rank@)(d),
                forall|j: int| 0 <= j < n && marked@[j] ==> bound <= rk(#[trigger] idv[j]) < counter,
                forall|k: int|
                    0 <= k < ne.len() && assigned_id(idv, marked@, (#[trigger] ne[k]).0) ==> (old.contains(ne[k].1)
                        || assigned_id(idv, marked@, ne[k].1)) && rk(ne[k].0) > rk(ne[k].1),
            ensures
                marked@.len() == n,
                done == count_true(marked@),
                counter >= bound,
                forall|d: Seq<char>| #![trigger rk(d)] !assigned_id(idv, marked@, d) ==> rk(d) == (self.rank@)(d),
                forall|j: int| 0 <= j < n && marked@[j] ==> bound <= rk(#[trigger] idv[j]) < counter,
                forall|k: int|
                    0 <= k < ne.len() && assigned_id(idv, marked@, (#[trigger] ne[k]).0) ==> (old.contains(ne[k].1)
                        || assigned_id(idv, marked@, ne[k].1)) && rk(ne[k].0) > rk(ne[k].1),
                forall|i: int| 0 <= i < n && !marked@[i] ==> !ready_spec(old, idv, marked@, ne, #[trigger] idv[i]),
            decreases n - done,
        {
            let mut progress = false;
            let ghost start = marked@;
            let ghost start_done = done;
            let mut i: usize = 0;
            while i < n
                invariant
                    self.wf(),
                    old == self@.drvs,
                    idv == ids(new_ids@),
                    ne == edges_of(new_edges@),
                    bound == self.rank_bound@,
                    n == new_ids@.len(),
                    i <= n,
                    marked@.len() == n,
                    done == count_true(marked@),
                    done <= n,
                    start.len() == n,
                    idv.no_duplicates(),
                    forall|i: int| 0 <= i < n ==> !old.contains(#[trigger] idv[i]),
                    counter >= bound,
                    forall|d: Seq<char>| #![trigger rk(d)] !assigned_id(idv, marked@, d) ==> rk(d) == (self.rank@)(d),
                    forall|j: int| 0 <= j < n && marked@[j] ==> bound <= rk(#[trigger] idv[j]) < counter,
                    forall|k: int|
                        0 <= k < ne.len() && assigned_id(idv, marked@, (#[trigger] ne[k]).0) ==> (old.contains(ne[k].1)
                            || assigned_id(idv, marked@, ne[k].1)) && rk(ne[k].0) > rk(ne[k].1),
                    !progress ==> marked@ == start && done == start_done,
                    progress ==> done > start_done,
                    !progress ==> forall|j: int| 0 <= j < i && !start[j] ==> !ready_spec(old, idv, start, ne, #[trigger] idv[j]),
                decreases n - i,
            {
                if !marked[i] {
                    if self.ready(new_ids, new_edges, &marked, i) {
                        let ghost before = marked@;
                        let ghost me = idv[i as int];
                        proof {
                            lemma_count_true_set(marked@, i as int);
                            lemma_count_true(marked@.update(i as int, true));
                            assert(!assigned_id(idv, before, me)) by {
                                if assigned_id(idv, before, me) {
                                    let w = choose|w: int|
                                        0 <= w < idv.len() && w < before.len() && #[trigger] idv[w] == me && before[w];
                                    assert(w == i);
                                }
                            }
                        }
                        marked.set(i, true);
                        proof {
                            let c = counter;
                            let prev = rk;
                            rk = |d: Seq<char>| if d == me { c } else { prev(d) };
                            counter = counter + 1;
                            assert forall|d: Seq<char>| assigned_id(idv, before, d) implies assigned_id(idv, marked@, d) by {
                                let w = choose|w: int|
                                    0 <= w < idv.len() && w < before.len() && #[trigger] idv[w] == d && before[w];
                                assert(marked@[w]);
                            }
                            assert(assigned_id(idv, marked@, me)) by {
                                assert(idv[i as int] == me && marked@[i as int]);
                            }
                            assert forall|d: Seq<char>| #![trigger rk(d)] !assigned_id(idv, marked@, d) implies rk(d) == (self.rank@)(d) by {
                                if d != me {
                                    assert(!assigned_id(idv, before, d));
                                }
                            }
                            assert forall|j: int| 0 <= j < n && marked@[j] implies bound <= rk(#[trigger] idv[j]) < counter by {
                                if j != i {
                                    assert(before[j]);
                                    assert(idv[j] != me);
                                }
                            }
                            assert forall|k: int|
                                0 <= k < ne.len() && assigned_id(idv, marked@, (#[trigger] ne[k]).0) implies (old.contains(ne[k].1)
                                    || assigned_id(idv, marked@, ne[k].1)) && rk(ne[k].0) > rk(ne[k].1) by {
                                let tgt = ne[k].1;
                                if ne[k].0 == me {
                                    assert(old.contains(tgt) || assigned_id(idv, before, tgt));
                                    if old.contains(tgt) {
                                        assert(!assigned_id(idv, before, tgt)) by {
                                            if assigned_id(idv, before, tgt) {
                                                let w = choose|w: int|
                                                    0 <= w < idv.len() && w < before.len() && #[trigger] idv[w] == tgt && before[w];
                                            }
                                        }
                                        assert(tgt != me);
                                        let w = choose|w: int| 0 <= w < old.len() && old[w] == tgt;
                                        assert((self.rank@)(old[w]) < bound);
                                    } else {
                                        let w = choose|w: int|
                                            0 <= w < idv.len() && w < before.len() && #[trigger] idv[w] == tgt && before[w];
                                        assert(w != i);
                                    }
                                } else {
                                    assert(assigned_id(idv, before, ne[k].0));
                                    assert(old.contains(tgt) || assigned_id(idv, before, tgt));
                                    if assigned_id(idv, before, tgt) {
                                        let w = choose|w: int|
                                            0 <= w < idv.len() && w < before.len() && #[trigger] idv[w] == tgt && before[w];
                                        assert(w != i);
                                    } else {
                                        let w = choose|w: int| 0 <= w < old.len() && old[w] == tgt;
                                        assert(tgt != me);
                                    }
                                }
                            }
                        }
                        done = done + 1;
                        progress = true;
                    }
                }
                i = i + 1;
            }
            if !progress {
                break;
            }
        }
        proof {
            lemma_count_true(marked@);
        }
        if done == n {
            proof {
                let all = self@.edges + ne;
                assert forall|d: Seq<char>| idv.contains(d) implies assigned_id(idv, marked@, d) by {
                    let w = choose|w: int| 0 <= w < idv.len() && idv[w] == d;
                    assert(marked@[w]);
                }
                assert forall|i: int| 0 <= i < all.len() implies rk(#[trigger] all[i].0) > rk(all[i].1) by {
                    if i < self@.edges.len() {
                        let e = self@.edges[i];
                        assert(all[i] == e);
                        assert(old.contains(e.0) && old.contains(e.1));
                        assert(!assigned_id(idv, marked@, e.0)) by {
                            if assigned_id(idv, marked@, e.0) {
                                let w = choose|w: int|
                                    0 <= w < idv.len() && w < marked@.len() && #[trigger] idv[w] == e.0 && marked@[w];
                            }
                        }
                        assert(!assigned_id(idv, marked@, e.1)) by {
                            if assigned_id(idv, marked@, e.1) {
                                let w = choose|w: int|
                                    0 <= w < idv.len() && w < marked@.len() && #[trigger] idv[w] == e.1 && marked@[w];
                            }
                        }
                        assert(is_ranking(self@.edges, self.rank@));
                        assert((self.rank@)(self@.edges[i].0) > (self.rank@)(self@.edges[i].1));
                    } else {
                        let k = i - self@.edges.len();
                        assert(all[i] == ne[k]);
                        assert(idv.contains(ne[k].0));
                    }
                }
                assert forall|d: Seq<char>| #![trigger rk(d)] (old.contains(d) || idv.contains(d)) implies rk(d) < counter by {
                    if idv.contains(d) {
                        let w = choose|w: int| 0 <= w < idv.len() && idv[w] == d;
                        assert(marked@[w]);
                    } else {
                        let w = choose|w: int| 0 <= w < old.len() && old[w] == d;
                        assert(!assigned_id(idv, marked@, d)) by {
                            if assigned_id(idv, marked@, d) {
                                let v = choose|v: int|
                                    0 <= v < idv.len() && v < marked@.len() && #[trigger] idv[v] == d && marked@[v];
                            }
                        }
                        assert((self.rank@)(old[w]) < bound);
                    }
                }
                assert forall|d: Seq<char>| #![trigger rk(d)] old.contains(d) implies rk(d) == (self.rank@)(d) by {
                    assert(!assigned_id(idv, marked@, d)) by {
                        if assigned_id(idv, marked@, d) {
                            let v = choose|v: int|
                                0 <= v < idv.len() && v < marked@.len() && #[trigger] idv[v] == d && marked@[v];
                        }
                    }
                }
            }
            (true, Ghost(rk), Ghost(counter))
        } else {
            proof {
                let all = self@.edges + ne;
                assert(exists|j: int| 0 <= j < marked@.len() && !marked@[j]) by {
                    if forall|j: int| 0 <= j < marked@.len() ==> marked@[j] {
                        lemma_count_all_true(marked@);
                    }
                }
                assert forall|i: int|
                    0 <= i < marked@.len() && !marked@[i] implies exists|k: int, j: int|
                        0 <= k < all.len() && 0 <= j < marked@.len() && !marked@[j] && #[trigger] all[k] == (
                            idv[i],
                            #[trigger] idv[j],
                        ) by {
                    assert(!ready_spec(old, idv, marked@, ne, idv[i]));
                    let k = choose|k: int|
                        0 <= k < ne.len() && (#[trigger] ne[k]).0 == idv[i] && !(old.contains(ne[k].1)
                            || assigned_id(idv, marked@, ne[k].1));
                    let tgt = ne[k].1;
                    assert(idv.contains(tgt));
                    let j = choose|j: int| 0 <= j < idv.len() && idv[j] == tgt;
                    assert(!marked@[j]);
                    assert(all[k + self@.edges.len()] == ne[k]);
                    assert(all[k + self@.edges.len()] == (idv[i], idv[j]));
                }
                assert forall|r: spec_fn(Seq<char>) -> int| !is_ranking(all, r) by {
                    lemma_unranked_cycle(all, idv, marked@, r);
                }
            }
            (false, Ghost(rk), Ghost(counter))
        }
    }

    /// The stored identifiers followed by `new_ids`.
    fn nodes_with(&self, new_ids: &Vec<String>) -> (r: Vec<String>)
        ensures
            ids(r@) == self@.drvs + ids(new_ids@),
    {
        let mut r: Vec<String> = Vec::new();
        let mut i: usize = 0;
        while i < self.drvs.len()
            invariant
                i <= self.drvs.len(),
                ids(r@) == self@.drvs.subrange(0, i as int),
            decreases self.drvs.len() - i,
        {
            let ghost b = ids(r@);
            r.push(self.drvs[i].drv_path.clone());
            proof {
                assert(ids(r@) =~= b.push(self@.drvs[i as int]));
                assert(self@.drvs.subrange(0, i + 1) =~= self@.drvs.subrange(0, i as int).push(self@.drvs[i as int]));
            }
            i = i + 1;
        }
        let mut j: usize = 0;
        proof {
            assert(self@.drvs.subrange(0, self@.drvs.len() as int) =~= self@.drvs);
            assert(ids(new_ids@).subrange(0, 0) =~= Seq::<Seq<char>>::empty());
            assert(self@.drvs + ids(new_ids@).subrange(0, 0) =~= self@.drvs);
        }
        while j < new_ids.len()
            invariant
                j <= new_ids.len(),
                ids(r@) == self@.drvs + ids(new_ids@).subrange(0, j as int),
            decreases new_ids.len() - j,
        {
            let ghost b = ids(r@);
            r.push(new_ids[j].clone());
            proof {
                assert(ids(r@) =~= b.push(new_ids@[j as int]@));
                assert(self@.drvs + ids(new_ids@).subrange(0, j + 1) =~= (self@.drvs + ids(new_ids@).subrange(
                    0,
                    j as int,
                )).push(new_ids@[j as int]@));
            }
            j = j + 1;
        }
        proof {
            assert(ids(new_ids@).subrange(0, new_ids@.len() as int) =~= ids(new_ids@));
        }
        r
    }

    /// The stored edges followed by `new_edges`.
    fn edges_with(&self, new_edges: &Vec<(String, String)>) -> (r: Vec<(String, String)>)
        ensures
            edges_of(r@) == self@.edges + edges_of(new_edges@),
    {
        let mut r: Vec<(String, String)> = Vec::new();
        let mut i: usize = 0;
        while i < self.refs.len()
            invariant
                i <= self.refs.len(),
                edges_of(r@) == self@.edges.subrange(0, i as int),
            decreases self.refs.len() - i,
        {
            let ghost b = edges_of(r@);
            r.push((self.refs[i].0.clone(), self.refs[i].1.clone()));
            proof {
                assert(edges_of(r@) =~= b.push(self@.edges[i as int]));
                assert(self@.edges.subrange(0, i + 1) =~= self@.edges.subrange(0, i as int).push(self@.edges[i as int]));
            }
            i = i + 1;
        }
        let mut j: usize = 0;
        proof {
            assert(self@.edges.subrange(0, self@.edges.len() as int) =~= self@.edges);
            assert(self@.edges + edges_of(new_edges@).subrange(0, 0) =~= self@.edges);
        }
        while j < new_edges.len()
            invariant
                j <= new_edges.len(),
                edges_of(r@) == self@.edges + edges_of(new_edges@).subrange(0, j as int),
            decreases new_edges.len() - j,
        {
            let ghost b = edges_of(r@);
            r.push((new_edges[j].0.clone(), new_edges[j].1.clone()));
            proof {
                assert(edges_of(r@) =~= b.push(edges_of(new_edges@)[j as int]));
                assert(self@.edges + edges_of(new_edges@).subrange(0, j + 1) =~= (self@.edges + edges_of(
                    new_edges@,
                ).subrange(0, j as int)).push(edges_of(new_edges@)[j as int]));
            }
            j = j + 1;
        }
        proof {
            assert(edges_of(new_edges@).subrange(0, new_edges@.len() as int) =~= edges_of(new_edges@));
        }
        r
    }

    /// Inserts a dependency graph, each derivation with its direct references, in one
    /// transaction. Derivations are named by identifier or full store path.
    ///
    /// Derivations the store does not hold yet are added with `system` (a stored derivation
    /// keeps its row). An edge from each key to each of its references is added where the
    /// store does not hold it yet. The write is refused, and the store left as it was, where an
    /// edge would point to a derivation that is neither stored nor in the graph, or where the
    /// edges would form a cycle; otherwise it succeeds.
    pub fn insert_drv_graph(&mut self, drv_graph: &Vec<(String, Vec<String>)>, system: &String) -> (r: Result<(), StoreError>)
        requires
            old(self).wf(),
        ensures
            final(self).wf(),
            r == Err::<(), StoreError>(StoreError::MissingReference) <==> has_missing_reference(
                old(self)@.drvs,
                spec_new_ids(old(self)@.drvs, graph_view(drv_graph@)),
                spec_new_edges(old(self)@.edges, graph_view(drv_graph@)),
            ),
            r == Err::<(), StoreError>(StoreError::InvariantViolation) <==> !has_missing_reference(
                old(self)@.drvs,
                spec_new_ids(old(self)@.drvs, graph_view(drv_graph@)),
                spec_new_edges(old(self)@.edges, graph_view(drv_graph@)),
            ) && !acyclic(old(self)@.edges + spec_new_edges(old(self)@.edges, graph_view(drv_graph@))),
            r is Ok ==> final(self)@ == (StoreModel {
                drvs: old(self)@.drvs + spec_new_ids(old(self)@.drvs, graph_view(drv_graph@)),
                systems: old(self)@.systems + Seq::new(
                    spec_new_ids(old(self)@.drvs, graph_view(drv_graph@)).len(),
                    |i: int| system@,
                ),
                edges: old(self)@.edges + spec_new_edges(old(self)@.edges, graph_view(drv_graph@)),
                ..old(self)@
            }),
            r is Ok <==> !has_missing_reference(
                old(self)@.drvs,
                spec_new_ids(old(self)@.drvs, graph_view(drv_graph@)),
                spec_new_edges(old(self)@.edges, graph_view(drv_graph@)),
            ) && acyclic(old(self)@.edges + spec_new_edges(old(self)@.edges, graph_view(drv_graph@))),
            r is Err ==> final(self)@ == old(self)@,
    {
        let (new_ids, new_edges) = self.collect_new(drv_graph);
        if self.find_missing(&new_ids, &new_edges) {
            return Err(StoreError::MissingReference);
        }
        let nodes = self.nodes_with(&new_ids);
        let all_edges = self.edges_with(&new_edges);
        proof {
            let idv = ids(new_ids@);
            let ne = edges_of(new_edges@);
            let nv = ids(nodes@);
            assert(nv.no_duplicates()) by {
                assert forall|a: int, b: int| 0 <= a < b < nv.len() implies nv[a] != nv[b] by {
                    if a >= self@.drvs.len() {
                        assert(nv[a] == idv[a - self@.drvs.len()]);
                        assert(nv[b] == idv[b - self@.drvs.len()]);
                    } else if b >= self@.drvs.len() {
                        assert(nv[b] == idv[b - self@.drvs.len()]);
                        assert(!self@.drvs.contains(idv[b - self@.drvs.len()]));
                    }
                }
            }
            assert forall|d: Seq<char>| self@.drvs.contains(d) || idv.contains(d) implies nv.contains(d) by {
                if self@.drvs.contains(d) {
                    let w = choose|w: int| 0 <= w < self@.drvs.len() && self@.drvs[w] == d;
                    assert(nv[w] == d);
                } else {
                    let w = choose|w: int| 0 <= w < idv.len() && idv[w] == d;
                    assert(nv[w + self@.drvs.len()] == d);
                }
            }
            let ae = edges_of(all_edges@);
            assert forall|i: int| 0 <= i < ae.len() implies nv.contains(#[trigger] ae[i].0) && nv.contains(ae[i].1) by {
                if i < self@.edges.len() {
                    assert(ae[i] == self@.edges[i]);
                    assert(self@.edges_closed());
                } else {
                    assert(ae[i] == ne[i - self@.edges.len()]);
                }
            }
        }
        let (ok, Ghost(rk), Ghost(bound)) = rank_all(&nodes, &all_edges);
        if !ok {
            return Err(StoreError::InvariantViolation);
        }
        let ghost old_m = self@;
        let ghost old_rank = self.rank@;
        let ghost idv = ids(new_ids@);
        let ghost ne = edges_of(new_edges@);
        let ghost sys = Seq::new(idv.len(), |i: int| system@);
        let mut i: usize = 0;
        proof {
            assert(old_m.drvs + idv.subrange(0, 0) =~= old_m.drvs);
            assert(old_m.systems + sys.subrange(0, 0) =~= old_m.systems);
        }
        while i < new_ids.len()
            invariant
                i <= new_ids.len(),
                idv == ids(new_ids@),
                sys == Seq::new(idv.len(), |i: int| system@),
                self@.drvs == old_m.drvs + idv.subrange(0, i as int),
                self@.systems == old_m.systems + sys.subrange(0, i as int),
                self@.edges == old_m.edges,
                self@.builds == old_m.builds,
                self@.events == old_m.events,
            decreases new_ids.len() - i,
        {
            let ghost before = self@;
            self.drvs.push(Drv { drv_path: new_ids[i].clone(), system: system.clone() });
            proof {
                assert(self@.drvs =~= before.drvs.push(idv[i as int]));
                assert(old_m.drvs + idv.subrange(0, i + 1) =~= (old_m.drvs + idv.subrange(0, i as int)).push(idv[i as int]));
                assert(self@.systems =~= before.systems.push(system@));
                assert(old_m.systems + sys.subrange(0, i + 1) =~= (old_m.systems + sys.subrange(0, i as int)).push(system@));
                assert(self@.edges =~= before.edges);
                assert(self@.builds =~= before.builds);
                assert(self@.events =~= before.events);
            }
            i = i + 1;
        }
        let mut k: usize = 0;
        proof {
            assert(idv.subrange(0, idv.len() as int) =~= idv);
            assert(sys.subrange(0, sys.len() as int) =~= sys);
            assert(old_m.edges + ne.subrange(0, 0) =~= old_m.edges);
        }
        while k < new_edges.len()
            invariant
                k <= new_edges.len(),
                ne == edges_of(new_edges@),
                self@.drvs == old_m.drvs + idv,
                self@.systems == old_m.systems + sys,
                self@.edges == old_m.edges + ne.subrange(0, k as int),
                self@.builds == old_m.builds,
                self@.events == old_m.events,
            decreases new_edges.len() - k,
        {
            let ghost before = self@;
            self.refs.push((new_edges[k].0.clone(), new_edges[k].1.clone()));
            proof {
                assert(self@.edges =~= before.edges.push(ne[k as int]));
                assert(old_m.edges + ne.subrange(0, k + 1) =~= (old_m.edges + ne.subrange(0, k as int)).push(ne[k as int]));
                assert(self@.drvs =~= before.drvs);
                assert(self@.systems =~= before.systems);
                assert(self@.builds =~= before.builds);
                assert(self@.events =~= before.events);
            }
            k = k + 1;
        }
        self.rank = Ghost(rk);
        self.rank_bound = Ghost(bound);
        proof {
            assert(ne.subrange(0, ne.len() as int) =~= ne);
            let m = self@;
            assert(m.drvs.no_duplicates()) by {
                assert forall|a: int, b: int| 0 <= a < b < m.drvs.len() implies m.drvs[a] != m.drvs[b] by {
                    if b < old_m.drvs.len() {
                    } else if a >= old_m.drvs.len() {
                        assert(m.drvs[a] == idv[a - old_m.drvs.len()]);
                        assert(m.drvs[b] == idv[b - old_m.drvs.len()]);
                    } else {
                        assert(m.drvs[b] == idv[b - old_m.drvs.len()]);
                        assert(!old_m.drvs.contains(idv[b - old_m.drvs.len()]));
                    }
                }
            }
            assert(m.edges.no_duplicates()) by {
                assert forall|a: int, b: int| 0 <= a < b < m.edges.len() implies m.edges[a] != m.edges[b] by {
                    if b < old_m.edges.len() {
                    } else if a >= old_m.edges.len() {
                        assert(m.edges[a] == ne[a - old_m.edges.len()]);
                        assert(m.edges[b] == ne[b - old_m.edges.len()]);
                    } else {
                        let e = ne[b - old_m.edges.len()];
                        assert(m.edges[b] == e);
                        assert(!old_m.edges.contains(e));
                        assert(m.edges[a] == old_m.edges[a]);
                    }
                }
            }
            assert forall|d: Seq<char>| old_m.drvs.contains(d) implies m.drvs.contains(d) by {
                let w = choose|w: int| 0 <= w < old_m.drvs.len() && old_m.drvs[w] == d;
                assert(m.drvs[w] == d);
            }
            assert forall|d: Seq<char>| idv.contains(d) implies m.drvs.contains(d) by {
                let w = choose|w: int| 0 <= w < idv.len() && idv[w] == d;
                assert(m.drvs[w + old_m.drvs.len()] == d);
            }
            assert(m.edges_closed()) by {
                assert forall|i: int| 0 <= i < m.edges.len() implies m.drvs.contains(#[trigger] m.edges[i].0)
                    && m.drvs.contains(m.edges[i].1) by {
                    if i < old_m.edges.len() {
                        assert(m.edges[i] == old_m.edges[i]);
                        assert(old_m.drvs.contains(old_m.edges[i].0));
                        assert(old_m.drvs.contains(old_m.edges[i].1));
                    } else {
                        let e = ne[i - old_m.edges.len()];
                        assert(m.edges[i] == e);
                        assert(idv.contains(e.0) || old_m.drvs.contains(e.0));
                        assert(old_m.drvs.contains(e.1) || idv.contains(e.1));
                    }
                }
            }
            assert forall|i: int| 0 <= i < m.drvs.len() implies (self.rank@)(#[trigger] m.drvs[i]) < self.rank_bound@ by {
                if i < old_m.drvs.len() {
                    assert(old_m.drvs.contains(m.drvs[i]));
                } else {
                    assert(m.drvs[i] == idv[i - old_m.drvs.len()]);
                    assert(idv.contains(m.drvs[i]));
                }
                assert(ids(nodes@).contains(m.drvs[i]));
            }
        }
        Ok(())
    }

    /// Inserts metadata for a new attempt at building its derivation, numbering the attempt
    /// one above the highest stored for that derivation, or 1 for the first.
    pub fn new_drv_build_metadata(&mut self, metadata: ForInsert<DrvBuildMetadata>) -> (r: Result<DrvBuildMetadata, StoreError>)
        requires
            old(self).wf(),
        ensures
            final(self).wf(),
            r is Err <==> attempts_of(old(self)@.builds, metadata.0.build.derivation@) >= u32::MAX,
            r matches Err(e) ==> e == StoreError::AttemptOverflow && final(self)@ == old(self)@,
            r matches Ok(m) ==> m@ == (MetadataView {
                build_attempt: (attempts_of(old(self)@.builds, metadata.0.build.derivation@) + 1) as u32,
                ..metadata.0@
            }) && final(self)@ == (StoreModel { builds: old(self)@.builds.push(m@), ..old(self)@ }),
    {
        let ForInsert(mut row) = metadata;
        proof {
            reveal(attempts_dense);
        }
        let ghost d = row.build.derivation@;
        let ghost b = self@.builds;
        let mut highest: u32 = 0;
        let mut i: usize = 0;
        proof {
            assert(b.subrange(0, 0) =~= Seq::<MetadataView>::empty());
        }
        while i < self.metadata.len()
            invariant
                self.wf(),
                b == self@.builds,
                d == row.build.derivation@,
                i <= self.metadata.len(),
                highest == attempts_of(b.subrange(0, i as int), d),
            decreases self.metadata.len() - i,
        {
            proof {
                reveal(attempts_dense);
                assert(b.subrange(0, i + 1).drop_last() =~= b.subrange(0, i as int));
                assert(b[i as int] == self.metadata@[i as int]@);
            }
            if self.metadata[i].build.derivation.equals(&row.build.derivation) {
                highest = self.metadata[i].build.build_attempt;
            }
            i = i + 1;
        }
        proof {
            assert(b.subrange(0, b.len() as int) =~= b);
        }
        if highest == u32::MAX {
            return Err(StoreError::AttemptOverflow);
        }
        row.build.build_attempt = highest + 1;
        let ghost old_m = self@;
        self.metadata.push(row.duplicate());
        proof {
            reveal(attempts_dense);
            let nb = self@.builds;
            assert(nb =~= b.push(row@));
            assert forall|k: int| 0 <= k < nb.len() implies (#[trigger] nb[k]).build_attempt == attempts_of(
                nb.subrange(0, k + 1),
                nb[k].derivation,
            ) by {
                if k < b.len() {
                    assert(nb.subrange(0, k + 1) =~= b.subrange(0, k + 1));
                } else {
                    assert(nb.subrange(0, k + 1) =~= nb);
                    assert(nb.drop_last() =~= b);
                }
            }
        }
        Ok(row)
    }

    /// The metadata of build attempt `build`, if the store holds it.
    pub fn build_metadata(&self, build: &DrvBuildId) -> (r: Option<DrvBuildMetadata>)
        ensures
            r is None <==> !exists|i: int|
                0 <= i < self@.builds.len() && (#[trigger] self@.builds[i]).derivation == build@.0
                    && self@.builds[i].build_attempt == build@.1,
            r matches Some(m) ==> exists|i: int|
                0 <= i < self@.builds.len() && #[trigger] self@.builds[i] == m@ && m@.derivation == build@.0
                    && m@.build_attempt == build@.1,
    {
        let mut i: usize = 0;
        while i < self.metadata.len()
            invariant
                i <= self.metadata.len(),
                forall|j: int|
                    0 <= j < i ==> !((#[trigger] self@.builds[j]).derivation == build@.0
                        && self@.builds[j].build_attempt == build@.1),
            decreases self.metadata.len() - i,
        {
            assert(self@.builds[i as int] == self.metadata@[i as int]@);
            if self.metadata[i].build.build_attempt == build.build_attempt
                && self.metadata[i].build.derivation.equals(&build.derivation) {
                let m = self.metadata[i].duplicate();
                return Some(m);
            }
            i = i + 1;
        }
        None
    }

    /// Appends an event as it is, timestamp included, unless its build already reached a
    /// terminal state. This is how stored events are loaded back.
    pub fn load_build_event(&mut self, event: DrvBuildEvent) -> (r: Result<DrvBuildEvent, StoreError>)
        requires
            old(self).wf(),
            event.build.build_attempt >= 1,
        ensures
            final(self).wf(),
            r is Err <==> build_is_terminal(old(self)@.events, event.build@.0, event.build@.1),
            r matches Err(e) ==> e == StoreError::TerminalState && final(self)@ == old(self)@,
            r matches Ok(e) ==> e@ == event@ && final(self)@ == (StoreModel {
                events: old(self)@.events.push(e@),
                ..old(self)@
            }),
    {
        let row = event;
        let ghost event0 = row;
        proof {
            reveal(terminal_sticky);
        }
        let ghost ev = self@.events;
        let mut i: usize = 0;
        while i < self.events.len()
            invariant
                self.wf(),
                ev == self@.events,
                row@ == event0@,
                event0@ == event@,
                i <= self.events.len(),
                forall|j: int|
                    0 <= j < i ==> !((#[trigger] ev[j]).derivation == row.build@.0 && ev[j].build_attempt
                        == row.build@.1 && spec_is_terminal(ev[j].state)),
            decreases self.events.len() - i,
        {
            assert(ev[i as int] == self.events@[i as int]@);
            if self.events[i].build.build_attempt == row.build.build_attempt && self.events[i].state.is_terminal()
                && self.events[i].build.derivation.equals(&row.build.derivation) {
                assert(ev[i as int].derivation == row.build@.0 && ev[i as int].build_attempt == row.build@.1
                    && spec_is_terminal(ev[i as int].state));
                return Err(StoreError::TerminalState);
            }
            i = i + 1;
        }
        self.events.push(row.duplicate());
        proof {
            reveal(terminal_sticky);
            reveal(attempts_positive);
            let ne = self@.events;
            assert(ne =~= ev.push(row@));
            assert forall|i: int| 0 <= i < ne.len() implies (#[trigger] ne[i]).build_attempt >= 1 by {
                if i < ev.len() {
                    assert(ne[i] == ev[i]);
                }
            }
            assert forall|a: int, c: int|
                0 <= a < c < ne.len() && same_build(#[trigger] ne[a], #[trigger] ne[c]) implies !spec_is_terminal(
                ne[a].state,
            ) by {
                if c < ev.len() {
                    assert(ne[a] == ev[a] && ne[c] == ev[c]);
                } else {
                    assert(ne[a] == ev[a]);
                }
            }
        }
        Ok(row)
    }

    /// Appends an event, stamped with the current time in seconds since the Unix epoch (0 where
    /// the clock reads earlier, or later than an `i64` can count), unless its build already
    /// reached a terminal state.
    pub fn new_drv_build_event(&mut self, event: ForInsert<DrvBuildEvent>) -> (r: Result<DrvBuildEvent, StoreError>)
        requires
            old(self).wf(),
            event.0.build.build_attempt >= 1,
        ensures
            final(self).wf(),
            r is Err <==> build_is_terminal(old(self)@.events, event.0.build@.0, event.0.build@.1),
            r matches Err(e) ==> e == StoreError::TerminalState && final(self)@ == old(self)@,
            r matches Ok(e) ==> e.build@ == event.0.build@ && e.state == event.0.state && 0 <= e.timestamp
                < i64::MAX
                && final(self)@ == (StoreModel { events: old(self)@.events.push(e@), ..old(self)@ }),
    {
        let ForInsert(mut row) = event;
        row.timestamp = match seconds_since_epoch() {
            Some(t) => {
                if t < 0x7fff_ffff_ffff_ffffu64 {
                    t as i64
                } else {
                    0
                }
            },
            None => 0,
        };
        self.load_build_event(row)
    }

    /// The latest event of any attempt at building `derivation`, if there is one.
    pub fn get_latest_build_event(&self, derivation: &DrvId) -> (r: Option<DrvBuildEvent>)
        ensures
            r is None <==> last_event_of(self@.events, derivation@) == -1,
            r matches Some(e) ==> 0 <= last_event_of(self@.events, derivation@) < self@.events.len()
                && e@ == self@.events[last_event_of(self@.events, derivation@)],
            self.wf() ==> (r matches Some(e) ==> e.build.build_attempt >= 1),
    {
        let ghost ev = self@.events;
        let mut i: usize = self.events.len();
        proof {
            assert(ev.subrange(0, ev.len() as int) =~= ev);
        }
        while i > 0
            invariant
                ev == self@.events,
                i <= self.events.len(),
                last_event_of(ev, derivation@) == last_event_of(ev.subrange(0, i as int), derivation@),
            decreases i,
        {
            let ghost pre = ev.subrange(0, i as int);
            proof {
                assert(pre.drop_last() =~= ev.subrange(0, i - 1));
                assert(pre.last() == self.events@[i - 1]@);
            }
            if self.events[i - 1].build.derivation.equals(derivation) {
                proof {
                    if self.wf() {
                        reveal(attempts_positive);
                        assert(ev[i - 1].build_attempt >= 1);
                    }
                }
                return Some(self.events[i - 1].duplicate());
            }
            i = i - 1;
        }
        proof {
            assert(ev.subrange(0, 0) =~= Seq::<EventView>::empty());
        }
        None
    }

    /// For each derivation whose latest event is in `state`, that event, ordered by position.
    pub fn get_derivations_in_state(&self, state: DrvBuildState) -> (r: Vec<DrvBuildEvent>)
        ensures
            r@.map_values(|e: DrvBuildEvent| e@) == latest_in_state(self@.events, state, self@.events.len() as int),
    {
        let ghost ev = self@.events;
        let n = self.events.len();
        let mut r: Vec<DrvBuildEvent> = Vec::new();
        let mut k: usize = 0;
        proof {
            assert(r@.map_values(|e: DrvBuildEvent| e@) =~= Seq::<EventView>::empty());
        }
        while k < n
            invariant
                ev == self@.events,
                n == ev.len(),
                k <= n,
                r@.map_values(|e: DrvBuildEvent| e@) == latest_in_state(ev, state, k as int),
            decreases n - k,
        {
            let mut latest = true;
            let mut j: usize = k + 1;
            while j < n
                invariant
                    ev == self@.events,
                    n == ev.len(),
                    k < j <= n,
                    latest <==> forall|t: int| k < t < j ==> (#[trigger] ev[t]).derivation != ev[k as int].derivation,
                decreases n - j,
            {
                assert(ev[j as int] == self.events@[j as int]@);
                if self.events[j].build.derivation.equals(&self.events[k].build.derivation) {
                    latest = false;
                }
                j = j + 1;
            }
            assert(ev[k as int] == self.events@[k as int]@);
            if latest && self.events[k].state == state {
                let ghost before = r@.map_values(|e: DrvBuildEvent| e@);
                r.push(self.events[k].duplicate());
                proof {
                    assert(r@.map_values(|e: DrvBuildEvent| e@) =~= before.push(ev[k as int]));
                }
            }
            k = k + 1;
        }
        r
    }

    /// The number of stored metadata rows.
    pub fn build_count(&self) -> (r: usize)
        ensures
            r == self@.builds.len(),
    {
        self.metadata.len()
    }

    /// The number of stored events.
    pub fn event_count(&self) -> (r: usize)
        ensures
            r == self@.events.len(),
    {
        self.events.len()
    }

    /// Whether derivation `i` has an edge to `target` or to a marked derivation.
    fn leads_to_marked(&self, i: usize, target: &String, marked: &Vec<bool>) -> (r: bool)
        requires
            i < self@.drvs.len(),
            marked@.len() == self@.drvs.len(),
        ensures
            r <==> exists|k: int|
                0 <= k < self@.edges.len() && (#[trigger] self@.edges[k]).0 == self@.drvs[i as int] && (
                self@.edges[k].1 == target@ || assigned_id(self@.drvs, marked@, self@.edges[k].1)),
    {
        let ghost e = self@.edges;
        let ghost dv = self@.drvs;
        let src = &self.drvs[i].drv_path;
        let mut k: usize = 0;
        while k < self.refs.len()
            invariant
                e == self@.edges,
                dv == self@.drvs,
                i < dv.len(),
                marked@.len() == dv.len(),
                src@ == dv[i as int],
                k <= self.refs.len(),
                forall|t: int|
                    0 <= t < k && (#[trigger] e[t]).0 == dv[i as int] ==> !(e[t].1 == target@ || assigned_id(
                        dv,
                        marked@,
                        e[t].1,
                    )),
            decreases self.refs.len() - k,
        {
            assert(e[k as int] == edge_view(self.refs@[k as int]));
            if self.refs[k].0 == *src {
                let dst = &self.refs[k].1;
                if *dst == *target {
                    return true;
                }
                let mut j: usize = 0;
                while j < self.drvs.len()
                    invariant
                        dv == self@.drvs,
                        e == self@.edges,
                        marked@.len() == dv.len(),
                        k < e.len(),
                        i < dv.len(),
                        e[k as int].0 == dv[i as int],
                        e[k as int].1 == dst@,
                        j <= dv.len(),
                        forall|w: int| 0 <= w < j && dv[w] == dst@ ==> !marked@[w],
                    decreases self.drvs.len() - j,
                {
                    if self.drvs[j].drv_path == *dst && marked[j] {
                        assert(dv[j as int] == dst@ && marked@[j as int]);
                        return true;
                    }
                    j = j + 1;
                }
            }
            k = k + 1;
        }
        false
    }

    /// Marks each stored derivation that has a path to `drv`, with a witness path for each.
    #[verifier::rlimit(50)]
    fn mark_dependants(&self, drv: &String) -> (r: (Vec<bool>, Ghost<Seq<Seq<Seq<char>>>>))
        ensures
            r.0@.len() == self@.drvs.len(),
            r.1@.len() == self@.drvs.len(),
            forall|j: int|
                0 <= j < self@.drvs.len() && #[trigger] r.0@[j] ==> is_path(self@.edges, r.1@[j]) && r.1@[j][0]
                    == self@.drvs[j] && r.1@[j][r.1@[j].len() - 1] == drv@,
            closed_marks(self@.edges, self@.drvs, r.0@, drv@),
    {
        let ghost e = self@.edges;
        let ghost dv = self@.drvs;
        let n = self.drvs.len();
        let mut marked: Vec<bool> = Vec::new();
        let mut t: usize = 0;
        while t < n
            invariant
                t <= n,
                marked@.len() == t,
                forall|j: int| 0 <= j < t ==> !marked@[j],
            decreases n - t,
        {
            marked.push(false);
            t = t + 1;
        }
        proof {
            lemma_count_false(marked@);
        }
        let ghost mut wit: Seq<Seq<Seq<char>>> = Seq::new(n as nat, |j: int| Seq::<Seq<char>>::empty());
        let mut done: usize = 0;
        loop
            invariant
                e == self@.edges,
                dv == self@.drvs,
                n == dv.len(),
                marked@.len() == n,
                wit.len() == n,
                done == count_true(marked@),
                done <= n,
                forall|j: int|
                    0 <= j < n && #[trigger] marked@[j] ==> is_path(e, wit[j]) && wit[j][0] == dv[j] && wit[j][wit[j].len()
                        - 1] == drv@,
            ensures
                marked@.len() == n,
                wit.len() == n,
                forall|j: int|
                    0 <= j < n && #[trigger] marked@[j] ==> is_path(e, wit[j]) && wit[j][0] == dv[j] && wit[j][wit[j].len()
                        - 1] == drv@,
                closed_marks(e, dv, marked@, drv@),
            decreases n - done,
        {
            let mut progress = false;
            let ghost start = marked@;
            let ghost start_done = done;
            let mut i: usize = 0;
            while i < n
                invariant
                    e == self@.edges,
                    dv == self@.drvs,
                    n == dv.len(),
                    i <= n,
                    marked@.len() == n,
                    wit.len() == n,
                    start.len() == n,
                    done == count_true(marked@),
                    done <= n,
                    forall|j: int|
                        0 <= j < n && #[trigger] marked@[j] ==> is_path(e, wit[j]) && wit[j][0] == dv[j] && wit[j][wit[j].len()
                            - 1] == drv@,
                    !progress ==> marked@ == start && done == start_done,
                    progress ==> done > start_done,
                    !progress ==> forall|j: int, k: int|
                        0 <= j < i && !start[j] && 0 <= k < e.len() && (#[trigger] e[k]).0 == (#[trigger] dv[j]) ==> e[k].1
                            != drv@ && !assigned_id(dv, start, e[k].1),
                decreases n - i,
            {
                if !marked[i] {
                    if self.leads_to_marked(i, drv, &marked) {
                        let ghost before = marked@;
                        proof {
                            let k = choose|k: int|
                                0 <= k < e.len() && (#[trigger] e[k]).0 == dv[i as int] && (e[k].1 == drv@ || assigned_id(
                                    dv,
                                    before,
                                    e[k].1,
                                ));
                            assert(e.contains((dv[i as int], e[k].1)));
                            if e[k].1 == drv@ {
                                let p = lemma_extend_path(e, dv[i as int], seq![drv@]);
                                wit = wit.update(i as int, p);
                            } else {
                                let w = choose|w: int|
                                    0 <= w < dv.len() && w < before.len() && #[trigger] dv[w] == e[k].1 && before[w];
                                let p = lemma_extend_path(e, dv[i as int], wit[w]);
                                wit = wit.update(i as int, p);
                            }
                            lemma_count_true_set(marked@, i as int);
                            lemma_count_true(marked@.update(i as int, true));
                        }
                        marked.set(i, true);
                        done = done + 1;
                        progress = true;
                    }
                }
                i = i + 1;
            }
            if !progress {
                break;
            }
        }
        (marked, Ghost(wit))
    }

    /// The derivations that `marked` marks, in order of insertion.
    fn collect_marked(&self, marked: &Vec<bool>) -> (r: Vec<String>)
        requires
            self.wf(),
            marked@.len() == self@.drvs.len(),
        ensures
            ids(r@).no_duplicates(),
            forall|x: Seq<char>| ids(r@).contains(x) <==> assigned_id(self@.drvs, marked@, x),
    {
        let ghost dv = self@.drvs;
        let n = self.drvs.len();
        let mut r: Vec<String> = Vec::new();
        let ghost mut src: Seq<int> = Seq::empty();
        let mut j: usize = 0;
        while j < n
            invariant
                dv == self@.drvs,
                dv.no_duplicates(),
                n == dv.len(),
                marked@.len() == n,
                j <= n,
                src.len() == r@.len(),
                forall|q: int| 0 <= q < r@.len() ==> 0 <= #[trigger] src[q] < j && dv[src[q]] == ids(r@)[q] && marked@[src[q]],
                forall|w: int| 0 <= w < j && #[trigger] marked@[w] ==> ids(r@).contains(dv[w]),
                ids(r@).no_duplicates(),
            decreases n - j,
        {
            if marked[j] {
                let ghost before = ids(r@);
                r.push(self.drvs[j].drv_path.clone());
                proof {
                    src = src.push(j as int);
                    assert(ids(r@) =~= before.push(dv[j as int]));
                    assert(!before.contains(dv[j as int])) by {
                        if before.contains(dv[j as int]) {
                            let q = choose|q: int| 0 <= q < before.len() && before[q] == dv[j as int];
                            assert(ids(r@)[q] == before[q]);
                            assert(dv[src[q]] == dv[j as int]);
                        }
                    }
                    assert forall|q: int| 0 <= q < r@.len() implies 0 <= #[trigger] src[q] < j + 1 && dv[src[q]] == ids(r@)[q]
                        && marked@[src[q]] by {
                        if q < before.len() {
                            assert(ids(r@)[q] == before[q]);
                        }
                    }
                    assert forall|w: int| 0 <= w < j + 1 && #[trigger] marked@[w] implies ids(r@).contains(dv[w]) by {
                        if w < j {
                            let q = choose|q: int| 0 <= q < before.len() && before[q] == dv[w];
                            assert(ids(r@)[q] == dv[w]);
                        } else {
                            assert(ids(r@)[before.len() as int] == dv[w]);
                        }
                    }
                }
            }
            j = j + 1;
        }
        proof {
            assert forall|x: Seq<char>| ids(r@).contains(x) <==> assigned_id(dv, marked@, x) by {
                if ids(r@).contains(x) {
                    let q = choose|q: int| 0 <= q < ids(r@).len() && ids(r@)[q] == x;
                    assert(dv[src[q]] == x);
                }
                if assigned_id(dv, marked@, x) {
                    let w = choose|w: int| 0 <= w < dv.len() && w < marked@.len() && #[trigger] dv[w] == x && marked@[w];
                }
            }
        }
        r
    }

    /// The stored derivations that depend on `drv`, directly or transitively, in order of
    /// insertion.
    #[verifier::rlimit(50)]
    pub fn transitive_dependants(&self, drv: &String) -> (r: Vec<String>)
        requires
            self.wf(),
        ensures
            ids(r@).no_duplicates(),
            forall|x: Seq<char>| ids(r@).contains(x) <==> reaches(self@.edges, x, drv@),
    {
        let (marked, Ghost(wit)) = self.mark_dependants(drv);
        let r = self.collect_marked(&marked);
        proof {
            let e = self@.edges;
            let dv = self@.drvs;
            assert forall|x: Seq<char>| ids(r@).contains(x) <==> reaches(e, x, drv@) by {
                if assigned_id(dv, marked@, x) {
                    let w = choose|w: int| 0 <= w < dv.len() && w < marked@.len() && #[trigger] dv[w] == x && marked@[w];
                    assert(is_path(e, wit[w]));
                }
                if reaches(e, x, drv@) {
                    let p = choose|p: Seq<Seq<char>>| #[trigger] is_path(e, p) && p[0] == x && p[p.len() - 1] == drv@;
                    assert forall|t: int| 0 <= t < e.len() implies dv.contains(#[trigger] e[t].0) by {
                        assert(self@.edges_closed());
                    }
                    lemma_closed_marks_complete(e, dv, marked@, drv@, p, 0);
                }
            }
        }
        r
    }

    /// The derivations with an edge to `drv`: its direct dependants.
    pub fn dependants(&self, drv: &String) -> (r: Vec<String>)
        requires
            self.wf(),
        ensures
            ids(r@).no_duplicates(),
            forall|x: Seq<char>| ids(r@).contains(x) <==> self@.edges.contains((x, drv@)),
    {
        let ghost e = self@.edges;
        let mut r: Vec<String> = Vec::new();
        let mut k: usize = 0;
        while k < self.refs.len()
            invariant
                e == self@.edges,
                e.no_duplicates(),
                ids(r@).no_duplicates(),
                k <= e.len(),
                forall|x: Seq<char>| ids(r@).contains(x) <==> exists|t: int| 0 <= t < k && #[trigger] e[t] == (x, drv@),
            decreases self.refs.len() - k,
        {
            assert(e[k as int] == edge_view(self.refs@[k as int]));
            if self.refs[k].1 == *drv {
                let ghost before = ids(r@);
                r.push(self.refs[k].0.clone());
                proof {
                    assert(ids(r@) =~= before.push(e[k as int].0));
                    assert(!before.contains(e[k as int].0)) by {
                        if before.contains(e[k as int].0) {
                            let t = choose|t: int| 0 <= t < k && #[trigger] e[t] == (e[k as int].0, drv@);
                        }
                    }
                    assert forall|x: Seq<char>| ids(r@).contains(x) <==> exists|t: int| 0 <= t < k + 1 && #[trigger] e[t] == (x, drv@) by {
                        if ids(r@).contains(x) {
                            let q = choose|q: int| 0 <= q < ids(r@).len() && ids(r@)[q] == x;
                            if q < before.len() {
                                assert(before[q] == x);
                                assert(before.contains(x));
                            } else {
                                assert(e[k as int] == (x, drv@));
                            }
                        }
                        if exists|t: int| 0 <= t < k + 1 && #[trigger] e[t] == (x, drv@) {
                            let t = choose|t: int| 0 <= t < k + 1 && #[trigger] e[t] == (x, drv@);
                            if t < k {
                                assert(before.contains(x));
                                let q = choose|q: int| 0 <= q < before.len() && before[q] == x;
                                assert(ids(r@)[q] == x);
                            } else {
                                assert(ids(r@)[before.len() as int] == x);
                            }
                        }
                    }
                }
            }
            k = k + 1;
        }
        r
    }

    /// The derivations that `drv` has an edge to: its direct dependencies.
    pub fn dependencies(&self, drv: &String) -> (r: Vec<String>)
        ensures
            forall|x: Seq<char>| ids(r@).contains(x) <==> self@.edges.contains((drv@, x)),
    {
        let ghost e = self@.edges;
        let mut r: Vec<String> = Vec::new();
        let mut k: usize = 0;
        while k < self.refs.len()
            invariant
                e == self@.edges,
                k <= e.len(),
                forall|x: Seq<char>| ids(r@).contains(x) <==> exists|t: int| 0 <= t < k && #[trigger] e[t] == (drv@, x),
            decreases self.refs.len() - k,
        {
            assert(e[k as int] == edge_view(self.refs@[k as int]));
            if self.refs[k].0 == *drv {
                let ghost before = ids(r@);
                r.push(self.refs[k].1.clone());
                proof {
                    assert(ids(r@) =~= before.push(e[k as int].1));
                    assert forall|x: Seq<char>| ids(r@).contains(x) <==> exists|t: int| 0 <= t < k + 1 && #[trigger] e[t] == (drv@, x) by {
                        if ids(r@).contains(x) {
                            let q = choose|q: int| 0 <= q < ids(r@).len() && ids(r@)[q] == x;
                            if q < before.len() {
                                assert(before[q] == x);
                                assert(before.contains(x));
                            } else {
                                assert(e[k as int] == (drv@, x));
                            }
                        }
                        if exists|t: int| 0 <= t < k + 1 && #[trigger] e[t] == (drv@, x) {
                            let t = choose|t: int| 0 <= t < k + 1 && #[trigger] e[t] == (drv@, x);
                            if t < k {
                                assert(before.contains(x));
                                let q = choose|q: int| 0 <= q < before.len() && before[q] == x;
                                assert(ids(r@)[q] == x);
                            } else {
                                assert(ids(r@)[before.len() as int] == x);
                            }
                        }
                    }
                }
            }
            k = k + 1;
        }
        r
    }

    /// The derivation at position `i`, in order of insertion.
    pub fn drv_at(&self, i: usize) -> (r: Option<Drv>)
        ensures
            r is Some <==> i < self@.drvs.len(),
            r matches Some(d) ==> d.drv_path@ == self@.drvs[i as int] && d.system@ == self@.systems[i as int],
    {
        if i < self.drvs.len() {
            Some(Drv { drv_path: self.drvs[i].drv_path.clone(), system: self.drvs[i].system.clone() })
        } else {
            None
        }
    }

    /// The edge at position `i`, in order of insertion, as `(referrer, reference)`.
    pub fn ref_at(&self, i: usize) -> (r: Option<(String, String)>)
        ensures
            r is Some <==> i < self@.edges.len(),
            r matches Some(e) ==> (e.0@, e.1@) == self@.edges[i as int],
    {
        if i < self.refs.len() {
            Some((self.refs[i].0.clone(), self.refs[i].1.clone()))
        } else {
            None
        }
    }

    /// The event at position `i`, in order of insertion.
    pub fn event_at(&self, i: usize) -> (r: Option<DrvBuildEvent>)
        ensures
            r is Some <==> i < self@.events.len(),
            r matches Some(e) ==> e@ == self@.events[i as int],
    {
        if i < self.events.len() {
            Some(self.events[i].duplicate())
        } else {
            None
        }
    }

    /// The metadata row at position `i`, in order of insertion.
    pub fn build_at(&self, i: usize) -> (r: Option<DrvBuildMetadata>)
        ensures
            r is Some <==> i < self@.builds.len(),
            r matches Some(m) ==> m@ == self@.builds[i as int],
    {
        if i < self.metadata.len() {
            Some(self.metadata[i].duplicate())
        } else {
            None
        }
    }

    /// The number of stored derivations.
    pub fn drv_count(&self) -> (r: usize)
        ensures
            r == self@.drvs.len(),
    {
        self.drvs.len()
    }

    /// The number of stored edges.
    pub fn ref_count(&self) -> (r: usize)
        ensures
            r == self@.edges.len(),
    {
        self.refs.len()
    }

    /// Whether the store holds the edge from `referrer` to `reference`.
    pub fn has_ref(&self, referrer: &String, reference: &String) -> (r: bool)
        ensures
            r == self@.edges.contains((referrer@, reference@)),
    {
        contains_edge(&self.refs, referrer, reference)
    }
}


/// Every key of `g`, without the store prefix, is in `old` or among what `g` adds to it.
proof fn lemma_keys_covered(old: Seq<Seq<char>>, g: Seq<(Seq<char>, Seq<Seq<char>>)>)
    ensures
        forall|i: int|
            0 <= i < g.len() ==> old.contains(spec_strip_store_prefix(#[trigger] g[i].0))
                || spec_new_ids(old, g).contains(spec_strip_store_prefix(g[i].0)),
    decreases g.len(),
{
    if g.len() > 0 {
        let prev = g.drop_last();
        lemma_keys_covered(old, prev);
        let p = spec_new_ids(old, prev);
        let n = spec_new_ids(old, g);
        assert forall|d: Seq<char>| p.contains(d) implies n.contains(d) by {
            let w = choose|w: int| 0 <= w < p.len() && p[w] == d;
            assert(n[w] == d);
        }
        assert forall|i: int| 0 <= i < g.len() implies old.contains(spec_strip_store_prefix(#[trigger] g[i].0))
            || n.contains(spec_strip_store_prefix(g[i].0)) by {
            if i < g.len() - 1 {
                assert(prev[i] == g[i]);
            } else {
                let k = spec_strip_store_prefix(g.last().0);
                if !old.contains(k) && !p.contains(k) {
                    assert(n[p.len() as int] == k);
                }
            }
        }
    }
}

/// Adding references only grows the edges, and afterwards each reference's edge is there.
proof fn lemma_add_refs_grows(
    old: Seq<(Seq<char>, Seq<char>)>,
    edges: Seq<(Seq<char>, Seq<char>)>,
    k: Seq<char>,
    refs: Seq<Seq<char>>,
)
    ensures
        forall|e: (Seq<char>, Seq<char>)| edges.contains(e) ==> add_refs(old, edges, k, refs).contains(e),
        forall|j: int|
            0 <= j < refs.len() ==> old.contains((k, spec_strip_store_prefix(#[trigger] refs[j]))) || add_refs(
                old,
                edges,
                k,
                refs,
            ).contains((k, spec_strip_store_prefix(refs[j]))),
    decreases refs.len(),
{
    if refs.len() > 0 {
        let pr = refs.drop_last();
        lemma_add_refs_grows(old, edges, k, pr);
        let prev = add_refs(old, edges, k, pr);
        let res = add_refs(old, edges, k, refs);
        let e = (k, spec_strip_store_prefix(refs.last()));
        assert forall|x: (Seq<char>, Seq<char>)| prev.contains(x) implies res.contains(x) by {
            if !(old.contains(e) || prev.contains(e)) {
                let w = choose|w: int| 0 <= w < prev.len() && prev[w] == x;
                assert(res[w] == x);
            }
        }
        assert forall|j: int|
            0 <= j < refs.len() implies old.contains((k, spec_strip_store_prefix(#[trigger] refs[j])))
                || res.contains((k, spec_strip_store_prefix(refs[j]))) by {
            if j < refs.len() - 1 {
                assert(pr[j] == refs[j]);
            } else if !(old.contains(e) || prev.contains(e)) {
                assert(res[prev.len() as int] == e);
            }
        }
    }
}

/// After a graph's edges are added, the edge from each key to each of its references is there.
proof fn lemma_new_edges_cover(oe: Seq<(Seq<char>, Seq<char>)>, g: Seq<(Seq<char>, Seq<Seq<char>>)>)
    ensures
        forall|i: int, j: int|
            0 <= i < g.len() && 0 <= j < g[i].1.len() ==> oe.contains(
                (spec_strip_store_prefix(g[i].0), spec_strip_store_prefix(#[trigger] g[i].1[j])),
            ) || spec_new_edges(oe, g).contains(
                (spec_strip_store_prefix(g[i].0), spec_strip_store_prefix(g[i].1[j])),
            ),
    decreases g.len(),
{
    if g.len() > 0 {
        let pg = g.drop_last();
        lemma_new_edges_cover(oe, pg);
        let prev = spec_new_edges(oe, pg);
        let k = spec_strip_store_prefix(g.last().0);
        lemma_add_refs_grows(oe, prev, k, g.last().1);
        assert forall|i: int, j: int|
            0 <= i < g.len() && 0 <= j < g[i].1.len() implies oe.contains(
                (spec_strip_store_prefix(g[i].0), spec_strip_store_prefix(#[trigger] g[i].1[j])),
            ) || spec_new_edges(oe, g).contains(
                (spec_strip_store_prefix(g[i].0), spec_strip_store_prefix(g[i].1[j])),
            ) by {
            if i < g.len() - 1 {
                assert(pg[i] == g[i]);
                assert(pg[i].1[j] == g[i].1[j]);
            } else {
                assert(g.last().1[j] == g[i].1[j]);
            }
        }
    }
}

/// References whose edges `old` holds add no edge.
proof fn lemma_add_refs_none(old: Seq<(Seq<char>, Seq<char>)>, k: Seq<char>, refs: Seq<Seq<char>>)
    requires
        forall|j: int| 0 <= j < refs.len() ==> old.contains((k, spec_strip_store_prefix(#[trigger] refs[j]))),
    ensures
        add_refs(old, Seq::empty(), k, refs) == Seq::<(Seq<char>, Seq<char>)>::empty(),
    decreases refs.len(),
{
    if refs.len() > 0 {
        let pr = refs.drop_last();
        assert forall|j: int| 0 <= j < pr.len() implies old.contains((k, spec_strip_store_prefix(#[trigger] pr[j]))) by {
            assert(pr[j] == refs[j]);
        }
        lemma_add_refs_none(old, k, pr);
        assert(old.contains((k, spec_strip_store_prefix(refs[refs.len() - 1]))));
    }
}

/// A graph whose keys are all in `d`, and whose edges are all in `oe`, adds nothing to a store
/// that holds `d` and `oe`.
proof fn lemma_nothing_new(d: Seq<Seq<char>>, oe: Seq<(Seq<char>, Seq<char>)>, g: Seq<(Seq<char>, Seq<Seq<char>>)>)
    requires
        forall|i: int| 0 <= i < g.len() ==> d.contains(spec_strip_store_prefix(#[trigger] g[i].0)),
        forall|i: int, j: int|
            0 <= i < g.len() && 0 <= j < g[i].1.len() ==> oe.contains(
                (spec_strip_store_prefix(g[i].0), spec_strip_store_prefix(#[trigger] g[i].1[j])),
            ),
    ensures
        spec_new_ids(d, g) == Seq::<Seq<char>>::empty(),
        spec_new_edges(oe, g) == Seq::<(Seq<char>, Seq<char>)>::empty(),
    decreases g.len(),
{
    if g.len() > 0 {
        let prev = g.drop_last();
        assert forall|i: int| 0 <= i < prev.len() implies d.contains(spec_strip_store_prefix(#[trigger] prev[i].0)) by {
            assert(prev[i] == g[i]);
        }
        assert forall|i: int, j: int|
            0 <= i < prev.len() && 0 <= j < prev[i].1.len() implies oe.contains(
                (spec_strip_store_prefix(prev[i].0), spec_strip_store_prefix(#[trigger] prev[i].1[j])),
            ) by {
            assert(prev[i] == g[i]);
            assert(prev[i].1[j] == g[i].1[j]);
        }
        lemma_nothing_new(d, oe, prev);
        assert(d.contains(spec_strip_store_prefix(g[g.len() - 1].0)));
        let last = g.last();
        assert forall|j: int| 0 <= j < last.1.len() implies oe.contains(
            (spec_strip_store_prefix(last.0), spec_strip_store_prefix(#[trigger] last.1[j])),
        ) by {
            assert(last.1[j] == g[g.len() - 1].1[j]);
        }
        lemma_add_refs_none(oe, spec_strip_store_prefix(last.0), last.1);
    }
}

/// Inserting a graph a second time adds no derivation and no edge.
pub proof fn lemma_insert_graph_idempotent(
    old: Seq<Seq<char>>,
    oe: Seq<(Seq<char>, Seq<char>)>,
    g: Seq<(Seq<char>, Seq<Seq<char>>)>,
)
    ensures
        spec_new_ids(old + spec_new_ids(old, g), g) == Seq::<Seq<char>>::empty(),
        spec_new_edges(oe + spec_new_edges(oe, g), g) == Seq::<(Seq<char>, Seq<char>)>::empty(),
{
    let n = spec_new_ids(old, g);
    let d = old + n;
    let ne = spec_new_edges(oe, g);
    let e2 = oe + ne;
    lemma_keys_covered(old, g);
    lemma_new_edges_cover(oe, g);
    assert forall|i: int| 0 <= i < g.len() implies d.contains(spec_strip_store_prefix(#[trigger] g[i].0)) by {
        let k = spec_strip_store_prefix(g[i].0);
        if old.contains(k) {
            let w = choose|w: int| 0 <= w < old.len() && old[w] == k;
            assert(d[w] == k);
        } else {
            let w = choose|w: int| 0 <= w < n.len() && n[w] == k;
            assert(d[w + old.len()] == k);
        }
    }
    assert forall|i: int, j: int|
        0 <= i < g.len() && 0 <= j < g[i].1.len() implies e2.contains(
            (spec_strip_store_prefix(g[i].0), spec_strip_store_prefix(#[trigger] g[i].1[j])),
        ) by {
        let e = (spec_strip_store_prefix(g[i].0), spec_strip_store_prefix(g[i].1[j]));
        if oe.contains(e) {
            let w = choose|w: int| 0 <= w < oe.len() && oe[w] == e;
            assert(e2[w] == e);
        } else {
            let w = choose|w: int| 0 <= w < ne.len() && ne[w] == e;
            assert(e2[w + oe.len()] == e);
        }
    }
    lemma_nothing_new(d, e2, g);
}

/// An empty graph adds no derivation and no edge.
pub proof fn lemma_empty_graph(old: Seq<Seq<char>>, oe: Seq<(Seq<char>, Seq<char>)>)
    ensures
        spec_new_ids(old, Seq::empty()) == Seq::<Seq<char>>::empty(),
        spec_new_edges(oe, Seq::empty()) == Seq::<(Seq<char>, Seq<char>)>::empty(),
        !has_missing_reference(old, Seq::empty(), Seq::empty()),
{
}

/// A derivation without references that the store lacks is added with no edge.
pub proof fn lemma_no_references_no_edges(old: Seq<Seq<char>>, oe: Seq<(Seq<char>, Seq<char>)>, drv: Seq<char>)
    requires
        !old.contains(spec_strip_store_prefix(drv)),
    ensures
        spec_new_ids(old, seq![(drv, Seq::<Seq<char>>::empty())]) == seq![spec_strip_store_prefix(drv)],
        spec_new_edges(oe, seq![(drv, Seq::<Seq<char>>::empty())]) == Seq::<(Seq<char>, Seq<char>)>::empty(),
{
    let g = seq![(drv, Seq::<Seq<char>>::empty())];
    let none = Seq::<(Seq<char>, Seq<Seq<char>>)>::empty();
    assert(g.drop_last() =~= none);
    assert(spec_new_ids(old, none) == Seq::<Seq<char>>::empty());
    assert(spec_new_edges(oe, none) == Seq::<(Seq<char>, Seq<char>)>::empty());
    assert(g.last().1 == Seq::<Seq<char>>::empty());
    assert(!Seq::<Seq<char>>::empty().contains(spec_strip_store_prefix(drv)));
    assert(Seq::<Seq<char>>::empty().push(spec_strip_store_prefix(drv)) =~= seq![spec_strip_store_prefix(drv)]);
}

impl Store {
    /// Every edge joins two derivations that the store holds.
    pub proof fn lemma_refs_have_drvs(&self)
        requires
            self.wf(),
        ensures
            forall|i: int|
                0 <= i < self@.edges.len() ==> self@.drvs.contains(#[trigger] self@.edges[i].0)
                    && self@.drvs.contains(self@.edges[i].1),
    {
    }

    /// The edges admit a ranking, and no walk along them returns to where it started.
    pub proof fn lemma_acyclic(&self, p: Seq<Seq<char>>)
        requires
            self.wf(),
        ensures
            acyclic(self@.edges),
            is_path(self@.edges, p) ==> p[0] != p[p.len() - 1],
    {
        let r = self.rank@;
        assert(is_ranking(self@.edges, r));
        if is_path(self@.edges, p) {
            lemma_path_descends(self@.edges, r, p, p.len() - 1);
        }
    }
}

/// Along a walk, the ranking falls at every step.
proof fn lemma_path_descends(edges: Seq<(Seq<char>, Seq<char>)>, r: spec_fn(Seq<char>) -> int, p: Seq<Seq<char>>, k: int)
    requires
        is_ranking(edges, r),
        is_path(edges, p),
        1 <= k < p.len(),
    ensures
        r(p[0]) > r(p[k]),
    decreases k,
{
    assert(edges.contains((p[k - 1], p[k])));
    let w = choose|w: int| 0 <= w < edges.len() && edges[w] == (p[k - 1], p[k]);
    assert(r(edges[w].0) > r(edges[w].1));
    if k > 1 {
        lemma_path_descends(edges, r, p, k - 1);
    }
}


proof fn lemma_attempts_prefix(b: Seq<MetadataView>, d: Seq<char>, a: int, c: int)
    requires
        0 <= a <= c <= b.len(),
    ensures
        attempts_of(b.subrange(0, a), d) <= attempts_of(b.subrange(0, c), d),
    decreases c - a,
{
    if a < c {
        assert(b.subrange(0, c).drop_last() =~= b.subrange(0, c - 1));
        lemma_attempts_prefix(b, d, a, c - 1);
    }
}

impl Store {
    /// Within a derivation, attempt numbers are distinct, start at 1 and do not exceed the
    /// number of metadata rows of that derivation; later rows have higher numbers.
    pub proof fn lemma_attempts_unique(&self)
        requires
            self.wf(),
        ensures
            forall|i: int|
                0 <= i < self@.builds.len() ==> 1 <= (#[trigger] self@.builds[i]).build_attempt
                    <= attempts_of(self@.builds, self@.builds[i].derivation),
            forall|i: int, j: int|
                0 <= i < j < self@.builds.len() && (#[trigger] self@.builds[i]).derivation
                    == (#[trigger] self@.builds[j]).derivation ==> self@.builds[i].build_attempt
                    < self@.builds[j].build_attempt,
    {
        reveal(attempts_dense);
        let b = self@.builds;
        assert forall|i: int| 0 <= i < b.len() implies 1 <= (#[trigger] b[i]).build_attempt <= attempts_of(
            b,
            b[i].derivation,
        ) by {
            assert(b.subrange(0, i + 1).drop_last() =~= b.subrange(0, i));
            lemma_attempts_prefix(b, b[i].derivation, i + 1, b.len() as int);
            assert(b.subrange(0, b.len() as int) =~= b);
        }
        assert forall|i: int, j: int|
            0 <= i < j < b.len() && (#[trigger] b[i]).derivation == (#[trigger] b[j]).derivation implies b[i].build_attempt
            < b[j].build_attempt by {
            let d = b[i].derivation;
            lemma_attempts_prefix(b, d, i + 1, j);
            assert(b.subrange(0, j + 1).drop_last() =~= b.subrange(0, j));
        }
    }

    /// Every event belongs to an attempt numbered from 1.
    pub proof fn lemma_attempts_positive(&self)
        requires
            self.wf(),
        ensures
            forall|i: int| 0 <= i < self@.events.len() ==> (#[trigger] self@.events[i]).build_attempt >= 1,
    {
        reveal(attempts_positive);
    }

    /// No event of a build follows a terminal event of that build, so the latest event of a
    /// build never leaves a terminal state.
    pub proof fn lemma_terminal_sticky(&self)
        requires
            self.wf(),
        ensures
            forall|i: int, j: int|
                0 <= i < j < self@.events.len() && same_build(#[trigger] self@.events[i], #[trigger] self@.events[j])
                    ==> !spec_is_terminal(self@.events[i].state),
    {
        reveal(terminal_sticky);
    }
}


/// The latest event of `d` is the last position that holds an event of `d`.
pub proof fn lemma_last_event_of(events: Seq<EventView>, d: Seq<char>)
    ensures
        -1 <= last_event_of(events, d) < events.len(),
        last_event_of(events, d) >= 0 ==> events[last_event_of(events, d)].derivation == d,
        forall|j: int| last_event_of(events, d) < j < events.len() ==> (#[trigger] events[j]).derivation != d,
    decreases events.len(),
{
    if events.len() > 0 && events.last().derivation != d {
        lemma_last_event_of(events.drop_last(), d);
        assert forall|j: int| last_event_of(events, d) < j < events.len() implies (#[trigger] events[j]).derivation != d by {
            if j < events.len() - 1 {
                assert(events.drop_last()[j] == events[j]);
            }
        }
    }
}

/// Appending an event of `e.derivation` makes it that derivation's latest and changes no other.
pub proof fn lemma_last_event_push(events: Seq<EventView>, e: EventView, d: Seq<char>)
    ensures
        last_event_of(events.push(e), d) == if e.derivation == d {
            events.len() as int
        } else {
            last_event_of(events, d)
        },
{
    assert(events.push(e).drop_last() =~= events);
}

impl Store {
    /// A build whose latest event is not terminal has no terminal event.
    pub proof fn lemma_latest_not_terminal(&self, d: Seq<char>)
        requires
            self.wf(),
            last_event_of(self@.events, d) >= 0,
            !spec_is_terminal(self@.events[last_event_of(self@.events, d)].state),
        ensures
            !build_is_terminal(self@.events, d, self@.events[last_event_of(self@.events, d)].build_attempt),
    {
        reveal(terminal_sticky);
        let ev = self@.events;
        let lo = last_event_of(ev, d);
        lemma_last_event_of(ev, d);
        if build_is_terminal(ev, d, ev[lo].build_attempt) {
            let i = choose|i: int|
                0 <= i < ev.len() && (#[trigger] ev[i]).derivation == d && ev[i].build_attempt == ev[lo].build_attempt
                    && spec_is_terminal(ev[i].state);
            assert(same_build(ev[i], ev[lo]));
        }
    }
}


/// The positions of the events that `latest_in_state` keeps: each is the latest of its
/// derivation and in `s`.
pub proof fn lemma_latest_in_state(events: Seq<EventView>, s: DrvBuildState, n: int) -> (ps: Seq<int>)
    requires
        0 <= n <= events.len(),
    ensures
        ps.len() == latest_in_state(events, s, n).len(),
        forall|k: int|
            0 <= k < ps.len() ==> 0 <= #[trigger] ps[k] < n && events[ps[k]] == latest_in_state(events, s, n)[k]
                && is_latest(events, ps[k]) && events[ps[k]].state == s,
        forall|a: int, b: int| 0 <= a < b < ps.len() ==> #[trigger] ps[a] < #[trigger] ps[b],
        forall|a: int, b: int|
            0 <= a < b < ps.len() ==> (#[trigger] latest_in_state(events, s, n)[a]).derivation != (
            #[trigger] latest_in_state(events, s, n)[b]).derivation,
    decreases n,
{
    if n <= 0 {
        Seq::empty()
    } else {
        let prev = lemma_latest_in_state(events, s, n - 1);
        if is_latest(events, n - 1) && events[n - 1].state == s {
            assert(latest_in_state(events, s, n) == latest_in_state(events, s, n - 1).push(events[n - 1]));
            let ps = prev.push(n - 1);
            assert forall|k: int| 0 <= k < ps.len() implies 0 <= #[trigger] ps[k] < n && events[ps[k]]
                == latest_in_state(events, s, n)[k] && is_latest(events, ps[k]) && events[ps[k]].state == s by {
                if k < prev.len() {
                    assert(ps[k] == prev[k]);
                }
            }
            assert forall|a: int, b: int| 0 <= a < b < ps.len() implies #[trigger] ps[a] < #[trigger] ps[b] by {
                assert(ps[a] == prev[a]);
                if b < prev.len() {
                    assert(ps[b] == prev[b]);
                }
            }
            let l = latest_in_state(events, s, n);
            assert forall|a: int, b: int| 0 <= a < b < ps.len() implies (#[trigger] l[a]).derivation != (
            #[trigger] l[b]).derivation by {
                assert(ps[a] < ps[b]);
                assert(is_latest(events, ps[a]));
                assert(events[ps[b]].derivation != events[ps[a]].derivation);
            }
            ps
        } else {
            assert(latest_in_state(events, s, n) == latest_in_state(events, s, n - 1));
            let l = latest_in_state(events, s, n);
            assert forall|a: int, b: int| 0 <= a < b < prev.len() implies (#[trigger] l[a]).derivation != (
            #[trigger] l[b]).derivation by {
                assert(prev[a] < prev[b]);
                assert(is_latest(events, prev[a]));
                assert(events[prev[b]].derivation != events[prev[a]].derivation);
            }
            prev
        }
    }
}


/// Rows of other derivations leave a derivation's attempt count unchanged.
pub proof fn lemma_attempts_other(old: Seq<MetadataView>, cur: Seq<MetadataView>, d: Seq<char>)
    requires
        old.is_prefix_of(cur),
        forall|i: int| old.len() <= i < cur.len() ==> (#[trigger] cur[i]).derivation != d,
    ensures
        attempts_of(cur, d) == attempts_of(old, d),
    decreases cur.len(),
{
    if cur.len() > old.len() {
        let p = cur.drop_last();
        assert(p.subrange(0, old.len() as int) =~= cur.subrange(0, old.len() as int));
        assert forall|i: int| old.len() <= i < p.len() implies (#[trigger] p[i]).derivation != d by {
            assert(p[i] == cur[i]);
        }
        lemma_attempts_other(old, p, d);
        assert(cur[cur.len() - 1].derivation != d);
    } else {
        assert(cur =~= old);
    }
}

impl Store {
    /// Metadata reads back as it was inserted: the last row inserted is the only row with its
    /// build id, so looking that id up finds it, with the same repository text, commit and
    /// command.
    pub proof fn lemma_metadata_read_back(&self)
        requires
            self.wf(),
            self@.builds.len() > 0,
        ensures
            forall|i: int|
                0 <= i < self@.builds.len() && (#[trigger] self@.builds[i]).derivation
                    == self@.builds.last().derivation && self@.builds[i].build_attempt
                    == self@.builds.last().build_attempt ==> self@.builds[i] == self@.builds.last(),
    {
        self.lemma_attempts_unique();
        let b = self@.builds;
        assert forall|i: int|
            0 <= i < b.len() && (#[trigger] b[i]).derivation == b.last().derivation && b[i].build_attempt
                == b.last().build_attempt implies b[i] == b.last() by {
            if i < b.len() - 1 {
                assert(b[i].build_attempt < b[b.len() - 1].build_attempt);
            }
        }
    }
}


/// An event that is the latest of its derivation and in `s` is among those `latest_in_state`
/// keeps.
pub proof fn lemma_latest_in_state_complete(events: Seq<EventView>, s: DrvBuildState, n: int, p: int)
    requires
        0 <= p < n <= events.len(),
        is_latest(events, p),
        events[p].state == s,
    ensures
        latest_in_state(events, s, n).contains(events[p]),
    decreases n,
{
    let prev = latest_in_state(events, s, n - 1);
    let cur = latest_in_state(events, s, n);
    if p == n - 1 {
        assert(cur == prev.push(events[p]));
        assert(cur[prev.len() as int] == events[p]);
    } else {
        lemma_latest_in_state_complete(events, s, n - 1, p);
        let w = choose|w: int| 0 <= w < prev.len() && prev[w] == events[p];
        if is_latest(events, n - 1) && events[n - 1].state == s {
            assert(cur == prev.push(events[n - 1]));
        }
        assert(cur[w] == events[p]);
    }
}

} // verus!
