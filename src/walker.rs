//! The dispatcher's task decisions and the depth-first walk of a derivation's references.
//!
//! The walk is a state machine: it names the next derivation whose references must be
//! queried, takes the query's output back, and in the end hands over the graph it found for
//! one insertion. Derivations already visited are never queried again.
use vstd::prelude::*;

use crate::drv::{parse_references, spec_references, spec_strip_store_prefix, strip_store_prefix};
use crate::store::{ids, Store};

verus! {

/// A request to evaluate a job file.
#[derive(Debug)]
pub struct EvalJob {
    /// Absolute path of the file to evaluate.
    pub file_path: String,
}

/// The work the dispatcher takes from clients, in order.
#[derive(Debug)]
pub enum EvalTask {
    /// Evaluate a job file and traverse each derivation it yields.
    Job(EvalJob),
    /// Traverse the reference closure of a derivation.
    TraverseDrv(String),
}

/// A derivation as the evaluator reports it.
#[derive(Debug)]
pub struct NixEvalDrv {
    /// Full attribute path, such as `python.pkgs.setuptools`.
    pub attr: String,
    /// The attribute path's segments.
    pub attr_path: Vec<String>,
    /// Store path of the derivation.
    pub drv_path: String,
    /// Each input derivation with the outputs used from it.
    pub input_drvs: Vec<(String, Vec<String>)>,
    /// Name of the derivation.
    pub name: String,
    /// Each output with its store path.
    pub outputs: Vec<(String, String)>,
    /// Platform the derivation builds for.
    pub system: String,
}

/// An attribute the evaluator could not evaluate.
#[derive(Debug)]
pub struct NixEvalError {
    pub attr: String,
    pub attr_path: Vec<String>,
    /// The diagnostic, over several lines.
    pub error: String,
}

/// One record of the evaluator's output.
#[derive(Debug)]
pub enum NixEvalItem {
    Error(NixEvalError),
    Drv(NixEvalDrv),
}

/// What the dispatcher does with a task.
#[derive(Debug)]
pub enum TaskAction {
    /// Run the evaluator on this file and hand each record to `task_for_item`.
    Evaluate(String),
    /// Run this walk to its end, then insert its graph.
    Walk(GraphWalker),
    /// Nothing: the derivation was visited or stored already.
    Skip,
}

/// The derivations the dispatcher visited, shared by all walks.
#[derive(Debug)]
pub struct Dispatcher {
    visited: Vec<String>,
}

/// A depth-first walk of the references of one derivation.
#[derive(Debug)]
pub struct GraphWalker {
    stack: Vec<String>,
    pending: Vec<(String, Vec<String>)>,
}

/// The identifiers in `s`, each without the store prefix.
pub open spec fn stripped(s: Seq<Seq<char>>) -> Seq<Seq<char>> {
    s.map_values(|x: Seq<char>| spec_strip_store_prefix(x))
}

/// `x` needs no query: it was visited, or the store holds it.
pub open spec fn skipped(memo: &Dispatcher, store: &Store, x: Seq<char>) -> bool {
    memo.visited().contains(x) || store@.drvs.contains(x)
}

/// Whether `s` is among `v`.
fn contains_str(v: &Vec<String>, s: &String) -> (r: bool)
    ensures
        r == ids(v@).contains(s@),
{
    let mut i: usize = 0;
    while i < v.len()
        invariant
            i <= v.len(),
            forall|j: int| 0 <= j < i ==> v@[j]@ != s@,
        decreases v.len() - i,
    {
        if v[i] == *s {
            assert(ids(v@)[i as int] == s@);
            return true;
        }
        i = i + 1;
    }
    proof {
        if ids(v@).contains(s@) {
            let j = choose|j: int| 0 <= j < ids(v@).len() && ids(v@)[j] == s@;
            assert(v@[j]@ == s@);
        }
    }
    false
}

impl Dispatcher {
    /// The derivations visited so far.
    pub closed spec fn visited(&self) -> Seq<Seq<char>> {
        ids(self.visited@)
    }

    pub fn new() -> (r: Dispatcher)
        ensures
            r.visited().len() == 0,
    {
        let r = Dispatcher { visited: Vec::new() };
        proof {
            assert(r.visited() =~= Seq::<Seq<char>>::empty());
        }
        r
    }

    pub fn has_visited(&self, drv: &String) -> (r: bool)
        ensures
            r == self.visited().contains(drv@),
    {
        contains_str(&self.visited, drv)
    }

    /// What to do with `task`: evaluate a job's file, or walk a derivation (named by
    /// identifier or full store path) that is neither visited nor stored.
    pub fn handle_task(&self, store: &Store, task: EvalTask) -> (r: TaskAction)
        ensures
            task matches EvalTask::Job(j) ==> r matches TaskAction::Evaluate(f) && f@ == j.file_path@,
            task matches EvalTask::TraverseDrv(d) ==> (r is Skip <==> skipped(
                self,
                store,
                spec_strip_store_prefix(d@),
            )),
            task matches EvalTask::TraverseDrv(d) ==> (r matches TaskAction::Walk(w) ==> w.queue() == seq![
                spec_strip_store_prefix(d@),
            ] && w.found().len() == 0),
            task is TraverseDrv ==> !(r is Evaluate),
    {
        match task {
            EvalTask::Job(job) => TaskAction::Evaluate(job.file_path),
            EvalTask::TraverseDrv(drv) => {
                let id = strip_store_prefix(drv);
                if self.has_visited(&id) || store.has_id(id.as_str()) {
                    TaskAction::Skip
                } else {
                    TaskAction::Walk(GraphWalker::new(id))
                }
            },
        }
    }

    /// The task that an evaluator record asks for: a traversal of each derivation it reports.
    /// Errors are only reported, never fatal.
    pub fn task_for_item(item: &NixEvalItem) -> (r: Option<EvalTask>)
        ensures
            item matches NixEvalItem::Drv(d) ==> r matches Some(EvalTask::TraverseDrv(p)) && p@ == d.drv_path@,
            item is Error ==> r is None,
    {
        match item {
            NixEvalItem::Drv(d) => Some(EvalTask::TraverseDrv(d.drv_path.clone())),
            NixEvalItem::Error(_) => None,
        }
    }
}

impl GraphWalker {
    /// The derivations left to query, the next one last.
    pub closed spec fn queue(&self) -> Seq<Seq<char>> {
        ids(self.stack@)
    }

    /// The derivations queried so far, each with its references.
    pub closed spec fn found(&self) -> Seq<(Seq<char>, Seq<Seq<char>>)> {
        self.pending@.map_values(|e: (String, Vec<String>)| (e.0@, ids(e.1@)))
    }

    /// A walk that starts at `root`.
    pub fn new(root: String) -> (r: GraphWalker)
        ensures
            r.queue() == seq![root@],
            r.found().len() == 0,
    {
        let mut stack: Vec<String> = Vec::new();
        stack.push(root);
        let r = GraphWalker { stack, pending: Vec::new() };
        proof {
            assert(r.queue() =~= seq![root@]);
            assert(r.found() =~= Seq::<(Seq<char>, Seq<Seq<char>>)>::empty());
        }
        r
    }

    /// The next derivation to query: the last queued one that is neither visited nor stored,
    /// after dropping the queued ones above it, which are. `None` once no such one is left.
    pub fn next_query(&mut self, memo: &Dispatcher, store: &Store) -> (r: Option<String>)
        ensures
            final(self).found() == old(self).found(),
            final(self).queue() == old(self).queue().subrange(0, final(self).queue().len() as int),
            r is None ==> final(self).queue().len() == 0 && forall|t: int|
                0 <= t < old(self).queue().len() ==> skipped(memo, store, #[trigger] old(self).queue()[t]),
            r matches Some(q) ==> final(self).queue().len() < old(self).queue().len() && q@ == old(self).queue()[final(self).queue().len() as int] && !skipped(memo, store, q@) && forall|t: int|
                final(self).queue().len() < t < old(self).queue().len() ==> skipped(
                    memo,
                    store,
                    #[trigger] old(self).queue()[t],
                ),
    {
        let ghost q0 = self.queue();
        proof {
            assert(q0.subrange(0, q0.len() as int) =~= q0);
        }
        while self.stack.len() > 0
            invariant
                self.found() == old(self).found(),
                q0 == old(self).queue(),
                self.queue().len() <= q0.len(),
                self.queue() == q0.subrange(0, self.queue().len() as int),
                forall|t: int| self.queue().len() <= t < q0.len() ==> skipped(memo, store, #[trigger] q0[t]),
            decreases self.stack.len(),
        {
            let ghost before = self.queue();
            let next = self.stack.pop().unwrap();
            proof {
                assert(self.queue() =~= before.drop_last());
                assert(next@ == before.last());
                assert(self.queue() =~= q0.subrange(0, self.queue().len() as int));
                assert(q0[self.queue().len() as int] == before[before.len() - 1]);
            }
            if !memo.has_visited(&next) && !store.has_id(next.as_str()) {
                return Some(next);
            }
        }
        None
    }

    /// Takes the output of the reference query for `drv`: records `drv` as visited and found
    /// with its references (without the store prefix), and queues each reference that is not
    /// visited.
    pub fn record(&mut self, memo: &mut Dispatcher, drv: String, output: &str)
        ensures
            final(memo).visited() == old(memo).visited().push(drv@),
            final(self).found() == old(self).found().push((drv@, stripped(spec_references(output@)))),
            old(self).queue().is_prefix_of(final(self).queue()),
            forall|q: Seq<char>|
                #![trigger final(self).queue().contains(q)]
                final(self).queue().contains(q) ==> old(self).queue().contains(q) || (stripped(
                    spec_references(output@),
                ).contains(q) && !final(memo).visited().contains(q)),
            forall|q: Seq<char>|
                #![trigger stripped(spec_references(output@)).contains(q)]
                stripped(spec_references(output@)).contains(q) && !final(memo).visited().contains(q)
                    ==> final(self).queue().contains(q),
    {
        let refs = parse_references(output);
        let ghost rv = stripped(spec_references(output@));
        let ghost old_queue = self.queue();
        let ghost vb = memo.visited();
        memo.visited.push(drv.clone());
        proof {
            assert(memo.visited() =~= vb.push(drv@));
            assert(old_queue.subrange(0, old_queue.len() as int) =~= old_queue);
        }
        let mut ids_out: Vec<String> = Vec::new();
        let mut i: usize = 0;
        while i < refs.len()
            invariant
                i <= refs.len(),
                ids(refs@) == spec_references(output@),
                rv == stripped(spec_references(output@)),
                ids(ids_out@) == rv.subrange(0, i as int),
                memo.visited() == vb.push(drv@),
                self.found() == old(self).found(),
                old_queue == old(self).queue(),
                old_queue.is_prefix_of(self.queue()),
                forall|q: Seq<char>|
                    #![trigger self.queue().contains(q)]
                    self.queue().contains(q) ==> old_queue.contains(q) || (rv.contains(q)
                        && !memo.visited().contains(q)),
                forall|t: int|
                    0 <= t < i && !memo.visited().contains(#[trigger] rv[t]) ==> self.queue().contains(rv[t]),
            decreases refs.len() - i,
        {
            let id = strip_store_prefix(refs[i].clone());
            proof {
                assert(ids(refs@)[i as int] == refs@[i as int]@);
                assert(id@ == rv[i as int]);
            }
            let ghost ib = ids(ids_out@);
            ids_out.push(id.clone());
            proof {
                assert(ids(ids_out@) =~= ib.push(id@));
                assert(rv.subrange(0, i + 1) =~= rv.subrange(0, i as int).push(rv[i as int]));
            }
            if !memo.has_visited(&id) {
                let ghost before = self.queue();
                self.stack.push(id);
                proof {
                    assert(self.queue() =~= before.push(rv[i as int]));
                    assert(self.queue()[before.len() as int] == rv[i as int]);
                    assert(self.queue().subrange(0, old_queue.len() as int) =~= before.subrange(0, old_queue.len() as int));
                    assert(rv.contains(rv[i as int]));
                    assert forall|q: Seq<char>| #![trigger self.queue().contains(q)] self.queue().contains(q) implies old_queue.contains(q)
                        || (rv.contains(q) && !memo.visited().contains(q)) by {
                        let w = choose|w: int| 0 <= w < self.queue().len() && self.queue()[w] == q;
                        if w < before.len() {
                            assert(before[w] == q);
                            assert(before.contains(q));
                        }
                    }
                    assert forall|t: int| 0 <= t < i + 1 && !memo.visited().contains(#[trigger] rv[t]) implies self.queue().contains(rv[t]) by {
                        if t < i {
                            let w = choose|w: int| 0 <= w < before.len() && before[w] == rv[t];
                            assert(self.queue()[w] == rv[t]);
                        }
                    }
                }
            }
            i = i + 1;
        }
        proof {
            assert(rv.subrange(0, rv.len() as int) =~= rv);
            assert(ids(refs@).len() == rv.len());
            assert forall|q: Seq<char>|
                #![trigger rv.contains(q)]
                rv.contains(q) && !memo.visited().contains(q) implies self.queue().contains(q) by {
                let t = choose|t: int| 0 <= t < rv.len() && rv[t] == q;
            }
        }
        let ghost fb = self.found();
        let ghost qb = self.queue();
        self.pending.push((drv, ids_out));
        proof {
            assert(self.found() =~= fb.push((drv@, rv)));
            assert(self.queue() == qb);
        }
    }

    /// Ends the walk: the graph to insert, each queried derivation with its references.
    pub fn finish(self) -> (r: Vec<(String, Vec<String>)>)
        ensures
            r@.map_values(|e: (String, Vec<String>)| (e.0@, ids(e.1@))) == self.found(),
    {
        self.pending
    }
}

} // verus!
