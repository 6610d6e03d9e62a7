//! The scheduler: it hands out the steps of a pipeline in dependency order. It counts, for
//! each step, the dependencies that have not finished; a step is handed out when its count
//! reaches zero, and the build ends when every step has finished.

use vstd::prelude::*;
use std::collections::HashMap;
use crate::channels::ExecutorEvent;
use crate::graph::{has_cycle, in_degree, is_closed_walk, is_walk};
use crate::pipeline::{Pipeline, StepId, edges_within, id_range};

verus! {

broadcast use vstd::std_specs::hash::group_hash_axioms;

/// The steps among the first `k` ids that wait for no other step, in order.
pub open spec fn ready_upto(es: Seq<(usize, usize)>, k: nat) -> Seq<usize>
    decreases k,
{
    if k == 0 {
        Seq::empty()
    } else {
        let rest = ready_upto(es, (k - 1) as nat);
        if in_degree(es, (k - 1) as usize) == 0 {
            rest.push((k - 1) as usize)
        } else {
            rest
        }
    }
}

/// The counts of a new build of `n` steps: each step's number of dependencies.
pub open spec fn initial_counts(es: Seq<(usize, usize)>, n: nat) -> Map<usize, usize> {
    Map::new(|k: usize| k < n, |k: usize| in_degree(es, k) as usize)
}

/// The counts once step `id` has finished: `id` leaves them, and each step that waits for
/// it waits for one step less.
pub open spec fn finish_counts(c: Map<usize, usize>, es: Seq<(usize, usize)>, id: usize) -> Map<usize, usize> {
    Map::new(
        |t: usize| c.contains_key(t) && t != id,
        |t: usize| if es.contains((id, t)) { (c[t] - 1) as usize } else { c[t] },
    )
}

/// The steps that the end of step `id` releases: those that wait for it and for no other
/// unfinished step.
pub open spec fn released_by(c: Map<usize, usize>, es: Seq<(usize, usize)>, id: usize, t: usize) -> bool {
    c.contains_key(t) && t != id && es.contains((id, t)) && c[t] == 1
}

/// The steps of `ts` that the end of step `id` releases, in the order of `ts`.
pub open spec fn released_in_order(c: Map<usize, usize>, es: Seq<(usize, usize)>, id: usize, ts: Seq<usize>) -> Seq<
    usize,
>
    decreases ts.len(),
{
    if ts.len() == 0 {
        Seq::empty()
    } else {
        let rest = released_in_order(c, es, id, ts.drop_last());
        if released_by(c, es, id, ts.last()) {
            rest.push(ts.last())
        } else {
            rest
        }
    }
}

/// No count would drop below zero when step `id` finishes.
pub open spec fn can_finish(c: Map<usize, usize>, es: Seq<(usize, usize)>, id: usize) -> bool {
    forall|t: usize| c.contains_key(t) && t != id && #[trigger] es.contains((id, t)) ==> c[t] >= 1
}

/// What the scheduler decides on an event.
pub enum SchedulerDecision {
    /// Hand these steps to the executor, and wait for the next event.
    Dispatch(Vec<StepId>),
    /// Every step has finished: shut the executor down and end the build.
    Finish,
}

/// The scheduler's state: for each step that has not finished, the number of its
/// dependencies that have not finished.
pub struct DefaultScheduler {
    wait_counts: HashMap<usize, usize>,
}

impl DefaultScheduler {
    /// The counts of the steps that have not finished.
    pub closed spec fn counts(&self) -> Map<usize, usize> {
        self.wait_counts@
    }

    /// A scheduler with no step.
    pub fn new() -> (res: Self)
        ensures
            res.counts() == Map::<usize, usize>::empty(),
    {
        Self { wait_counts: HashMap::new() }
    }

    /// Starts a build of `pipeline`: counts the dependencies of each step, and returns, in
    /// order, the steps that have none.
    pub fn start(&mut self, pipeline: &Pipeline) -> (ready: Vec<StepId>)
        requires
            pipeline.wf(),
        ensures
            final(self).counts() == old(self).counts().union_prefer_right(
                initial_counts(pipeline.edges(), pipeline.steps_view().len()),
            ),
            ready@ == ready_upto(pipeline.edges(), pipeline.steps_view().len()),
    {
        let nodes = pipeline.step_ids();
        let ghost es = pipeline.edges();
        let ghost start = self.wait_counts@;
        let n = nodes.len();
        let mut ready: Vec<StepId> = Vec::new();
        let mut i: usize = 0;
        assert(start.union_prefer_right(Map::new(|k: usize| k < 0, |k: usize| in_degree(es, k) as usize))
            =~= start);
        while i < n
            invariant
                n == nodes@.len(),
                nodes@ == id_range(n as nat),
                es == pipeline.edges(),
                i <= n,
                self.wait_counts@ == start.union_prefer_right(
                    Map::new(|k: usize| k < i, |k: usize| in_degree(es, k) as usize),
                ),
                ready@ == ready_upto(es, i as nat),
            decreases n - i,
        {
            let node = nodes[i];
            assert(node == i);
            let count = pipeline.dependency_count(node);
            self.wait_counts.insert(node, count);
            if count == 0 {
                ready.push(node);
            }
            i = i + 1;
            assert(self.wait_counts@ =~= start.union_prefer_right(
                Map::new(|k: usize| k < i, |k: usize| in_degree(es, k) as usize),
            ));
        }
        assert(Map::new(|k: usize| k < n, |k: usize| in_degree(es, k) as usize) =~= initial_counts(
            es,
            pipeline.steps_view().len(),
        ));
        ready
    }

    /// Whether [`Self::on_event`] can take in `event`: a step's end must not bring a count
    /// below zero (it would, were the same step reported finished twice).
    pub fn accepts(&self, pipeline: &Pipeline, event: ExecutorEvent) -> (res: bool)
        ensures
            event is StepFailed ==> res,
            event matches ExecutorEvent::StepFinished(id) ==> res == can_finish(self.counts(), pipeline.edges(), id),
    {
        match event {
            ExecutorEvent::StepFailed(_) => true,
            ExecutorEvent::StepFinished(id) => {
                let targets = pipeline.dependents(id);
                let n = targets.len();
                let mut k: usize = 0;
                while k < n
                    invariant
                        event == ExecutorEvent::StepFinished(id),
                        n == targets@.len(),
                        k <= n,
                        forall|t: usize| targets@.contains(t) <==> pipeline.edges().contains((id, t)),
                        forall|j: int| 0 <= j < k ==> {
                            let t = #[trigger] targets@[j];
                            self.wait_counts@.contains_key(t) && t != id ==> self.wait_counts@[t] >= 1
                        },
                    decreases n - k,
                {
                    let t = targets[k];
                    if t != id {
                        match self.wait_counts.get(&t) {
                            Some(count) => {
                                if *count == 0 {
                                    assert(targets@.contains(t));
                                    assert(pipeline.edges().contains((id, t)));
                                    assert(self.wait_counts@.contains_key(t) && self.wait_counts@[t] == 0);
                                    assert(!can_finish(self.counts(), pipeline.edges(), id));
                                    return false;
                                }
                            },
                            None => {},
                        }
                    }
                    k = k + 1;
                }
                assert forall|t: usize| self.wait_counts@.contains_key(t) && t != id && #[trigger] pipeline.edges().contains(
                    (id, t),
                ) implies self.wait_counts@[t] >= 1 by {
                    assert(targets@.contains(t));
                    let j = choose|j: int| 0 <= j < targets@.len() && targets@[j] == t;
                    assert(targets@[j] == t);
                }
                true
            },
        }
    }

    /// Takes in what the executor reports. When a step finished, it leaves the counts and
    /// each step that waits for it waits for one step less; then, unless no step is left,
    /// the steps whose count reached zero are handed out. A failure changes nothing.
    pub fn on_event(&mut self, pipeline: &Pipeline, event: ExecutorEvent) -> (res: SchedulerDecision)
        requires
            event matches ExecutorEvent::StepFinished(id) ==> can_finish(old(self).counts(), pipeline.edges(), id),
        ensures
            event matches ExecutorEvent::StepFinished(id) ==> {
                &&& final(self).counts() == finish_counts(old(self).counts(), pipeline.edges(), id)
                &&& match res {
                    SchedulerDecision::Finish => final(self).counts().is_empty(),
                    SchedulerDecision::Dispatch(steps) => {
                        &&& !final(self).counts().is_empty()
                        &&& steps@ == released_in_order(
                            old(self).counts(),
                            pipeline.edges(),
                            id,
                            pipeline.dependents_order(id),
                        )
                        &&& steps@.no_duplicates()
                        &&& forall|t: usize| steps@.contains(t) <==> released_by(
                            old(self).counts(),
                            pipeline.edges(),
                            id,
                            t,
                        )
                    },
                }
            },
            event matches ExecutorEvent::StepFailed(_) ==> {
                &&& final(self).counts() == old(self).counts()
                &&& res matches SchedulerDecision::Dispatch(steps) && steps@.len() == 0
            },
    {
        match event {
            ExecutorEvent::StepFailed(_) => SchedulerDecision::Dispatch(Vec::new()),
            ExecutorEvent::StepFinished(id) => {
                let ghost c = self.wait_counts@;
                let ghost es = pipeline.edges();
                self.wait_counts.remove(&id);
                let ghost removed = self.wait_counts@;
                if self.wait_counts.is_empty() {
                    assert(self.wait_counts@ =~= finish_counts(c, es, id));
                    return SchedulerDecision::Finish;
                }
                let targets = pipeline.dependents(id);
                let n = targets.len();
                let mut released: Vec<StepId> = Vec::new();
                let mut k: usize = 0;
                assert(self.wait_counts@ =~= Map::new(
                    |t: usize| removed.contains_key(t),
                    |t: usize| if targets@.take(0).contains(t) { (removed[t] - 1) as usize } else { removed[t] },
                ));
                while k < n
                    invariant
                        n == targets@.len(),
                        k <= n,
                        targets@.no_duplicates(),
                        forall|t: usize| targets@.contains(t) <==> es.contains((id, t)),
                        removed == c.remove(id),
                        can_finish(c, es, id),
                        self.wait_counts@ == Map::new(
                            |t: usize| removed.contains_key(t),
                            |t: usize| if targets@.take(k as int).contains(t) { (removed[t] - 1) as usize } else { removed[t] },
                        ),
                        released@.no_duplicates(),
                        released@ == released_in_order(c, es, id, targets@.take(k as int)),
                        forall|t: usize| #[trigger] released@.contains(t) <==> targets@.take(k as int).contains(t)
                            && removed.contains_key(t) && removed[t] == 1,
                    decreases n - k,
                {
                    let t = targets[k];
                    let ghost before = targets@.take(k as int);
                    assert(targets@.take(k + 1) =~= before.push(t));
                    assert(!before.contains(t)) by {
                        if before.contains(t) {
                            let j = choose|j: int| 0 <= j < before.len() && before[j] == t;
                            assert(targets@[j] == targets@[k as int]);
                        }
                    }
                    assert(targets@.contains(t));
                    assert forall|x: usize| targets@.take(k + 1).contains(x) == (before.contains(x) || x == t) by {
                        if targets@.take(k + 1).contains(x) {
                            let j = choose|j: int| 0 <= j < k + 1 && #[trigger] targets@.take(k + 1)[j] == x;
                            if j < k {
                                assert(before[j] == x);
                            }
                        }
                        if before.contains(x) {
                            let j = choose|j: int| 0 <= j < before.len() && before[j] == x;
                            assert(targets@.take(k + 1)[j] == x);
                        }
                        if x == t {
                            assert(targets@.take(k + 1)[k as int] == x);
                        }
                    }
                    let ghost rel0 = released@;
                    let ghost pushed = removed.contains_key(t) && removed[t] == 1;
                    match self.wait_counts.get(&t) {
                        Some(count) => {
                            let count = *count;
                            assert(removed.contains_key(t) && count == removed[t]);
                            assert(es.contains((id, t)));
                            let next = count - 1;
                            self.wait_counts.insert(t, next);
                            if next == 0 {
                                released.push(t);
                            }
                        },
                        None => {},
                    }
                    assert(released@ == if pushed { rel0.push(t) } else { rel0 });
                    assert(targets@.take(k + 1).drop_last() =~= before);
                    assert(pushed == released_by(c, es, id, t));
                    assert(rel0.contains(t) == (before.contains(t) && removed.contains_key(t) && removed[t] == 1));
                    assert(!rel0.contains(t));
                    assert forall|x: usize| #[trigger] released@.contains(x) == (targets@.take((k + 1) as int).contains(x)
                        && removed.contains_key(x) && removed[x] == 1) by {
                        if pushed {
                            if released@.contains(x) {
                                let j = choose|j: int| 0 <= j < released@.len() && released@[j] == x;
                                if j < rel0.len() {
                                    assert(rel0[j] == x);
                                }
                            }
                            if rel0.contains(x) {
                                let j = choose|j: int| 0 <= j < rel0.len() && rel0[j] == x;
                                assert(released@[j] == x);
                            }
                            assert(released@[rel0.len() as int] == t);
                        }
                        if x == t {
                            assert(!rel0.contains(t));
                        }
                    }
                    assert(released@.no_duplicates()) by {
                        if pushed {
                            assert forall|i: int, j: int| 0 <= i < released@.len() && 0 <= j < released@.len() && i != j
                                implies released@[i] != released@[j] by {
                                if i < rel0.len() && j < rel0.len() {
                                    assert(rel0[i] != rel0[j]);
                                } else if i < rel0.len() {
                                    assert(rel0.contains(rel0[i]));
                                } else if j < rel0.len() {
                                    assert(rel0.contains(rel0[j]));
                                }
                            }
                        }
                    }
                    k = k + 1;
                    assert(self.wait_counts@ =~= Map::new(
                        |t: usize| removed.contains_key(t),
                        |t: usize| if targets@.take(k as int).contains(t) { (removed[t] - 1) as usize } else { removed[t] },
                    ));
                }
                assert(targets@.take(n as int) =~= targets@);
                assert(self.wait_counts@ =~= finish_counts(c, es, id));
                assert(!self.wait_counts@.is_empty()) by {
                    assert(!removed.dom().is_empty());
                    let x = removed.dom().choose();
                    assert(self.wait_counts@.dom().contains(x));
                }
                SchedulerDecision::Dispatch(released)
            },
        }
    }
}


/// The number of edges in `es` that end in `n` and start at a step that has not finished.
pub open spec fn unfinished_deps(es: Seq<(usize, usize)>, n: usize, done: Set<usize>) -> nat
    decreases es.len(),
{
    if es.len() == 0 {
        0
    } else {
        unfinished_deps(es.drop_last(), n, done) + if es.last().1 == n && !done.contains(es.last().0) {
            1nat
        } else {
            0nat
        }
    }
}

/// The counts match the build's progress: exactly the steps that have not finished are
/// counted, each with the number of its dependencies that have not finished.
pub open spec fn counts_consistent(
    c: Map<usize, usize>,
    es: Seq<(usize, usize)>,
    len: nat,
    done: Set<usize>,
) -> bool {
    &&& c.dom() == Set::new(|k: usize| k < len && !done.contains(k))
    &&& forall|k: usize| #[trigger] c.contains_key(k) ==> c[k] == unfinished_deps(es, k, done)
}

/// Before any step finished, every dependency is unfinished.
proof fn lemma_unfinished_none_done(es: Seq<(usize, usize)>, n: usize)
    ensures
        unfinished_deps(es, n, Set::empty()) == in_degree(es, n),
        in_degree(es, n) <= es.len(),
    decreases es.len(),
{
    if es.len() > 0 {
        lemma_unfinished_none_done(es.drop_last(), n);
    }
}

/// The steps that `n` waits for, one per edge that ends in `n`, in the order of the edges.
spec fn sources_into(es: Seq<(usize, usize)>, n: usize) -> Seq<usize>
    decreases es.len(),
{
    if es.len() == 0 {
        Seq::empty()
    } else if es.last().1 == n {
        sources_into(es.drop_last(), n).push(es.last().0)
    } else {
        sources_into(es.drop_last(), n)
    }
}

/// One source per edge into `n`, each the start of such an edge, none twice where no edge
/// occurs twice.
proof fn lemma_sources_into(es: Seq<(usize, usize)>, n: usize)
    requires
        es.no_duplicates(),
    ensures
        sources_into(es, n).len() == in_degree(es, n),
        sources_into(es, n).no_duplicates(),
        forall|i: int| 0 <= i < sources_into(es, n).len() ==> es.contains((#[trigger] sources_into(es, n)[i], n)),
    decreases es.len(),
{
    if es.len() > 0 {
        let init = es.drop_last();
        assert(init.no_duplicates()) by {
            assert forall|i: int, j: int| 0 <= i < init.len() && 0 <= j < init.len() && i != j implies init[i]
                != init[j] by {
                assert(es[i] != es[j]);
            }
        }
        lemma_sources_into(init, n);
        let rest = sources_into(init, n);
        let cur = sources_into(es, n);
        let last = es.last();
        assert(es[es.len() - 1] == last);
        assert forall|i: int| 0 <= i < rest.len() implies es.contains((#[trigger] rest[i], n)) by {
            let j = choose|j: int| 0 <= j < init.len() && init[j] == (rest[i], n);
            assert(es[j] == init[j]);
        }
        if last.1 == n {
            assert forall|i: int| 0 <= i < rest.len() implies #[trigger] rest[i] != last.0 by {
                let j = choose|j: int| 0 <= j < init.len() && init[j] == (rest[i], n);
                assert(es[j] == init[j]);
                assert(j != es.len() - 1);
            }
            assert forall|i: int| 0 <= i < cur.len() implies es.contains((#[trigger] cur[i], n)) by {
                if i < rest.len() {
                    assert(cur[i] == rest[i]);
                }
            }
            assert forall|i: int, j: int| 0 <= i < cur.len() && 0 <= j < cur.len() && i != j implies cur[i]
                != cur[j] by {
                if i < rest.len() && j < rest.len() {
                    assert(rest[i] != rest[j]);
                } else if i < rest.len() {
                    assert(rest[i] != last.0);
                } else if j < rest.len() {
                    assert(rest[j] != last.0);
                }
            }
        }
    }
}

/// Where no edge occurs twice and every edge joins steps below `len`, a step waits for at
/// most `len` steps.
proof fn lemma_in_degree_bound(es: Seq<(usize, usize)>, len: nat, n: usize)
    requires
        es.no_duplicates(),
        edges_within(es, len),
        len <= usize::MAX,
    ensures
        in_degree(es, n) <= len,
{
    lemma_sources_into(es, n);
    let w = sources_into(es, n);
    assert forall|i: int| 0 <= i < w.len() implies #[trigger] w[i] < len by {
        let j = choose|j: int| 0 <= j < es.len() && es[j] == (w[i], n);
        assert(es[j].0 < len);
    }
    if w.len() > len {
        lemma_pigeonhole(w, len);
    }
}

/// The count is zero exactly when every edge that ends in `n` starts at a finished step.
proof fn lemma_unfinished_zero(es: Seq<(usize, usize)>, n: usize, done: Set<usize>)
    ensures
        unfinished_deps(es, n, done) == 0 <==> forall|p: usize| #[trigger] es.contains((p, n)) ==> done.contains(p),
    decreases es.len(),
{
    if es.len() > 0 {
        let init = es.drop_last();
        lemma_unfinished_zero(init, n, done);
        assert forall|p: usize| #[trigger] es.contains((p, n)) == (init.contains((p, n)) || es.last() == (p, n)) by {
            if es.contains((p, n)) {
                let j = choose|j: int| 0 <= j < es.len() && es[j] == (p, n);
                if j < init.len() {
                    assert(init[j] == (p, n));
                }
            }
            if init.contains((p, n)) {
                let j = choose|j: int| 0 <= j < init.len() && init[j] == (p, n);
                assert(es[j] == (p, n));
            }
            assert(es[es.len() - 1] == es.last());
        }
        if unfinished_deps(es, n, done) != 0 {
            if unfinished_deps(init, n, done) != 0 {
                let p = choose|p: usize| #[trigger] init.contains((p, n)) && !done.contains(p);
                assert(es.contains((p, n)));
            } else {
                let p = es.last().0;
                assert(es.contains((p, n)));
            }
        }
    }
}

/// When step `id` finishes, the count of `n` drops by one exactly when `n` waits for `id`
/// (each edge occurs once).
proof fn lemma_unfinished_finish(es: Seq<(usize, usize)>, n: usize, done: Set<usize>, id: usize)
    requires
        es.no_duplicates(),
    ensures
        unfinished_deps(es, n, done) == unfinished_deps(es, n, done.insert(id)) + if es.contains((id, n))
            && !done.contains(id) {
            1nat
        } else {
            0nat
        },
    decreases es.len(),
{
    if es.len() > 0 {
        let init = es.drop_last();
        assert(init.no_duplicates()) by {
            assert forall|i: int, j: int| 0 <= i < init.len() && 0 <= j < init.len() && i != j implies init[i]
                != init[j] by {
                assert(es[i] != es[j]);
            }
        }
        lemma_unfinished_finish(init, n, done, id);
        let last = es.last();
        if last == (id, n) {
            assert(!init.contains((id, n))) by {
                if init.contains((id, n)) {
                    let j = choose|j: int| 0 <= j < init.len() && init[j] == (id, n);
                    assert(es[j] == es[es.len() - 1]);
                }
            }
            assert(es.contains((id, n))) by {
                assert(es[es.len() - 1] == (id, n));
            }
        } else {
            assert(es.contains((id, n)) == init.contains((id, n))) by {
                if es.contains((id, n)) {
                    let j = choose|j: int| 0 <= j < es.len() && es[j] == (id, n);
                    assert(j < init.len());
                    assert(init[j] == (id, n));
                }
                if init.contains((id, n)) {
                    let j = choose|j: int| 0 <= j < init.len() && init[j] == (id, n);
                    assert(es[j] == (id, n));
                }
            }
        }
    }
}

/// Starting a build counts every step with all its dependencies unfinished, and hands out
/// exactly the steps without dependencies.
pub proof fn lemma_start_consistent(es: Seq<(usize, usize)>, len: nat)
    requires
        es.no_duplicates(),
        edges_within(es, len),
        len <= usize::MAX,
    ensures
        counts_consistent(initial_counts(es, len), es, len, Set::empty()),
        forall|k: usize| #[trigger] ready_upto(es, len).contains(k) <==> k < len && forall|p: usize|
            !es.contains((p, k)),
{
    let c = initial_counts(es, len);
    assert(c.dom() =~= Set::new(|k: usize| k < len && !Set::<usize>::empty().contains(k)));
    assert forall|k: usize| #[trigger] c.contains_key(k) implies c[k] == unfinished_deps(es, k, Set::empty()) by {
        lemma_unfinished_none_done(es, k);
        lemma_in_degree_bound(es, len, k);
    }
    lemma_ready_upto(es, len);
}

/// The steps handed out at the start are those without dependencies.
proof fn lemma_ready_upto(es: Seq<(usize, usize)>, k: nat)
    ensures
        forall|x: usize| #[trigger] ready_upto(es, k).contains(x) <==> x < k && forall|p: usize|
            !es.contains((p, x)),
    decreases k,
{
    if k > 0 {
        lemma_ready_upto(es, (k - 1) as nat);
        let rest = ready_upto(es, (k - 1) as nat);
        let top = (k - 1) as usize;
        lemma_unfinished_none_done(es, top);
        lemma_unfinished_zero(es, top, Set::empty());
        assert forall|x: usize| #[trigger] ready_upto(es, k).contains(x) <==> x < k && forall|p: usize|
            !es.contains((p, x)) by {
            lemma_unfinished_none_done(es, x);
            lemma_unfinished_zero(es, x, Set::empty());
            if in_degree(es, top) == 0 {
                let cur = rest.push(top);
                if cur.contains(x) {
                    let j = choose|j: int| 0 <= j < cur.len() && cur[j] == x;
                    if j < rest.len() {
                        assert(rest[j] == x);
                    }
                }
                if rest.contains(x) {
                    let j = choose|j: int| 0 <= j < rest.len() && rest[j] == x;
                    assert(cur[j] == x);
                }
                if x == top {
                    assert(cur[rest.len() as int] == x);
                }
            }
        }
    }
}

/// When a counted step finishes, no count drops below zero, the counts stay consistent with
/// that step finished too, and every step it releases has all its dependencies finished and
/// has not finished itself.
pub proof fn lemma_finish_consistent(
    c: Map<usize, usize>,
    es: Seq<(usize, usize)>,
    len: nat,
    done: Set<usize>,
    id: usize,
)
    requires
        counts_consistent(c, es, len, done),
        c.contains_key(id),
        es.no_duplicates(),
    ensures
        can_finish(c, es, id),
        counts_consistent(finish_counts(c, es, id), es, len, done.insert(id)),
        finish_counts(c, es, id).is_empty() <==> forall|k: usize| k < len ==> #[trigger] done.insert(id).contains(k),
        forall|t: usize| #[trigger] released_by(c, es, id, t) ==> {
            &&& !done.insert(id).contains(t)
            &&& forall|p: usize| #[trigger] es.contains((p, t)) ==> done.insert(id).contains(p)
        },
{
    let d2 = done.insert(id);
    assert(!done.contains(id));
    assert forall|t: usize| c.contains_key(t) && t != id && #[trigger] es.contains((id, t)) implies c[t] >= 1 by {
        lemma_unfinished_finish(es, t, done, id);
    }
    let f = finish_counts(c, es, id);
    assert(f.dom() =~= Set::new(|k: usize| k < len && !d2.contains(k)));
    assert forall|k: usize| #[trigger] f.contains_key(k) implies f[k] == unfinished_deps(es, k, d2) by {
        lemma_unfinished_finish(es, k, done, id);
    }
    if f.is_empty() {
        assert forall|k: usize| k < len implies #[trigger] d2.contains(k) by {
            if !d2.contains(k) {
                assert(f.dom().contains(k));
            }
        }
    }
    if forall|k: usize| k < len ==> #[trigger] d2.contains(k) {
        assert(f.dom() =~= Set::<usize>::empty());
    }
    assert forall|t: usize| #[trigger] released_by(c, es, id, t) implies {
        &&& !d2.contains(t)
        &&& forall|p: usize| #[trigger] es.contains((p, t)) ==> d2.contains(p)
    } by {
        lemma_unfinished_finish(es, t, done, id);
        lemma_unfinished_zero(es, t, d2);
    }
}

/// A step whose count is zero has been handed out: a step's end never hands it out again,
/// and its count stays zero until it finishes itself.
pub proof fn lemma_handed_out_once(c: Map<usize, usize>, es: Seq<(usize, usize)>, id: usize, t: usize)
    requires
        c.contains_key(t),
        c[t] == 0,
        can_finish(c, es, id),
    ensures
        !released_by(c, es, id, t),
        t != id ==> finish_counts(c, es, id).contains_key(t) && finish_counts(c, es, id)[t] == 0,
{
    if t != id && es.contains((id, t)) {
        assert(c[t] >= 1);
    }
}

/// The counts after starting a build of `len` steps and taking in, in order, the ends of
/// the steps `events`.
pub open spec fn counts_after(es: Seq<(usize, usize)>, len: nat, events: Seq<usize>) -> Map<usize, usize>
    decreases events.len(),
{
    if events.len() == 0 {
        initial_counts(es, len)
    } else {
        finish_counts(counts_after(es, len, events.drop_last()), es, events.last())
    }
}

/// Each step end in `events` is that of a step still counted at that point (one that has
/// not finished yet), as the scheduler requires.
pub open spec fn valid_run(es: Seq<(usize, usize)>, len: nat, events: Seq<usize>) -> bool {
    forall|k: int| 0 <= k < events.len() ==> #[trigger] counts_after(es, len, events.take(k)).contains_key(events[k])
}

/// The step `t` is handed out at the point `k` of the run: at the start (`k == -1`) when
/// it has no dependency, and at the `k`-th step end when that end releases it.
pub open spec fn handed_out_at(es: Seq<(usize, usize)>, len: nat, events: Seq<usize>, k: int, t: usize) -> bool {
    if k == -1 {
        t < len && in_degree(es, t) == 0
    } else {
        released_by(counts_after(es, len, events.take(k)), es, events[k], t)
    }
}

/// Taking the first `k` ends of a valid run gives a valid run.
proof fn lemma_valid_run_prefix(es: Seq<(usize, usize)>, len: nat, events: Seq<usize>, k: int)
    requires
        valid_run(es, len, events),
        0 <= k <= events.len(),
    ensures
        valid_run(es, len, events.take(k)),
{
    let p = events.take(k);
    assert forall|j: int| 0 <= j < p.len() implies #[trigger] counts_after(es, len, p.take(j)).contains_key(p[j]) by {
        assert(p.take(j) =~= events.take(j));
        assert(counts_after(es, len, events.take(j)).contains_key(events[j]));
    }
}

/// The last end of a run, and the run before it.
proof fn lemma_run_last(events: Seq<usize>)
    requires
        events.len() > 0,
    ensures
        events.take(events.len() - 1) == events.drop_last(),
        events.drop_last().push(events.last()).to_set() == events.drop_last().to_set().insert(events.last()),
        events.to_set() == events.drop_last().to_set().insert(events.last()),
{
    let init = events.drop_last();
    assert(events.take(events.len() - 1) =~= init);
    assert(init.push(events.last()) =~= events);
    assert forall|x: usize| #[trigger] events.to_set().contains(x) == init.to_set().insert(events.last()).contains(x) by {
        if events.contains(x) {
            let j = choose|j: int| 0 <= j < events.len() && events[j] == x;
            if j < init.len() {
                assert(init[j] == x);
            }
        }
        if init.contains(x) {
            let j = choose|j: int| 0 <= j < init.len() && init[j] == x;
            assert(events[j] == x);
        }
        if x == events.last() {
            assert(events[events.len() - 1] == x);
        }
    }
    assert(events.to_set() =~= init.to_set().insert(events.last()));
}

/// Along a valid run, the counts stay consistent with the steps whose end was taken in.
pub proof fn lemma_run_consistent(es: Seq<(usize, usize)>, len: nat, events: Seq<usize>)
    requires
        valid_run(es, len, events),
        es.no_duplicates(),
        edges_within(es, len),
        len <= usize::MAX,
    ensures
        counts_consistent(counts_after(es, len, events), es, len, events.to_set()),
    decreases events.len(),
{
    if events.len() == 0 {
        lemma_start_consistent(es, len);
        assert(events.to_set() =~= Set::<usize>::empty());
    } else {
        let init = events.drop_last();
        lemma_run_last(events);
        lemma_valid_run_prefix(es, len, events, events.len() - 1);
        lemma_run_consistent(es, len, init);
        assert(counts_after(es, len, events.take(events.len() - 1)).contains_key(events[events.len() - 1]));
        lemma_finish_consistent(counts_after(es, len, init), es, len, init.to_set(), events.last());
    }
}

/// Along a valid run, every step handed out so far has count zero or has finished.
proof fn lemma_run_handed_out_stays(es: Seq<(usize, usize)>, len: nat, events: Seq<usize>, k: int, t: usize)
    requires
        valid_run(es, len, events),
        es.no_duplicates(),
        edges_within(es, len),
        len <= usize::MAX,
        -1 <= k < events.len(),
        handed_out_at(es, len, events, k, t),
    ensures
        counts_after(es, len, events).contains_key(t) ==> counts_after(es, len, events)[t] == 0,
    decreases events.len(),
{
    if events.len() == 0 {
        lemma_unfinished_none_done(es, t);
        lemma_in_degree_bound(es, len, t);
    } else {
        let init = events.drop_last();
        let n = events.len() - 1;
        let id = events[n];
        lemma_run_last(events);
        lemma_valid_run_prefix(es, len, events, n);
        lemma_run_consistent(es, len, init);
        assert(counts_after(es, len, events.take(n)).contains_key(id));
        let c = counts_after(es, len, init);
        lemma_finish_consistent(c, es, len, init.to_set(), id);
        if k < n {
            assert(handed_out_at(es, len, init, k, t)) by {
                if k >= 0 {
                    assert(init.take(k) =~= events.take(k));
                    assert(init[k] == events[k]);
                }
            }
            lemma_run_handed_out_stays(es, len, init, k, t);
            if c.contains_key(t) && t != id {
                lemma_handed_out_once(c, es, id, t);
            }
        }
    }
}

/// Along a valid run, a step is handed out at most once, and only once every step it
/// depends on has finished: at the start it has no dependency, and when the `k`-th end
/// releases it, each of its dependencies is among the first `k + 1` ends.
pub proof fn lemma_run_safety(es: Seq<(usize, usize)>, len: nat, events: Seq<usize>, j: int, k: int, t: usize)
    requires
        valid_run(es, len, events),
        es.no_duplicates(),
        edges_within(es, len),
        len <= usize::MAX,
        -1 <= j < k < events.len(),
        handed_out_at(es, len, events, k, t),
    ensures
        !handed_out_at(es, len, events, j, t),
        forall|p: usize| #[trigger] es.contains((p, t)) ==> events.take(k + 1).to_set().contains(p),
{
    let run = events.take(k);
    lemma_valid_run_prefix(es, len, events, k);
    lemma_valid_run_prefix(es, len, events, k + 1);
    lemma_run_consistent(es, len, run);
    let c = counts_after(es, len, run);
    assert(c.contains_key(events[k]));
    lemma_finish_consistent(c, es, len, run.to_set(), events[k]);
    let whole = events.take(k + 1);
    lemma_run_last(whole);
    assert(whole.drop_last() =~= run);
    assert(whole.last() == events[k]);
    if handed_out_at(es, len, events, j, t) {
        assert(handed_out_at(es, len, run, j, t)) by {
            if j >= 0 {
                assert(run.take(j) =~= events.take(j));
                assert(run[j] == events[j]);
            }
        }
        lemma_run_handed_out_stays(es, len, run, j, t);
    }
}

/// The ids below `n`, as a set.
spec fn ids_below(n: nat) -> Set<usize> {
    Set::new(|x: usize| x < n)
}

/// There are `n` ids below `n`.
proof fn lemma_ids_below(n: nat)
    requires
        n <= usize::MAX + 1,
    ensures
        ids_below(n).finite(),
        ids_below(n).len() == n,
    decreases n,
{
    if n == 0 {
        assert(ids_below(0) =~= Set::<usize>::empty());
    } else {
        lemma_ids_below((n - 1) as nat);
        let top = (n - 1) as usize;
        assert(ids_below(n) =~= ids_below((n - 1) as nat).insert(top));
        assert(!ids_below((n - 1) as nat).contains(top));
    }
}

/// More than `n` ids below `n` repeat one.
proof fn lemma_pigeonhole(w: Seq<usize>, n: nat)
    requires
        n <= usize::MAX + 1,
        w.len() > n,
        forall|i: int| 0 <= i < w.len() ==> #[trigger] w[i] < n,
    ensures
        !w.no_duplicates(),
{
    if w.no_duplicates() {
        w.unique_seq_to_set();
        lemma_ids_below(n);
        assert(w.to_set().subset_of(ids_below(n))) by {
            assert forall|x: usize| w.to_set().contains(x) implies ids_below(n).contains(x) by {
                let j = choose|j: int| 0 <= j < w.len() && w[j] == x;
                assert(w[j] < n);
            }
        }
        vstd::set_lib::lemma_len_subset(w.to_set(), ids_below(n));
    }
}

/// A dependency of `t` that has not finished, where there is one.
spec fn unfinished_dependency(es: Seq<(usize, usize)>, done: Set<usize>, t: usize) -> usize {
    choose|p: usize| es.contains((p, t)) && !done.contains(p)
}

/// From `start`, `n` times to an unfinished dependency of the step reached.
spec fn dependency_walk(es: Seq<(usize, usize)>, done: Set<usize>, start: usize, n: nat) -> Seq<usize>
    decreases n,
{
    if n == 0 {
        seq![start]
    } else {
        let w = dependency_walk(es, done, start, (n - 1) as nat);
        w.push(unfinished_dependency(es, done, w.last()))
    }
}

/// Where every counted step waits for some unfinished step, one can walk back along
/// dependencies through counted steps as far as one likes.
proof fn lemma_dependency_walk(
    c: Map<usize, usize>,
    es: Seq<(usize, usize)>,
    len: nat,
    done: Set<usize>,
    start: usize,
    n: nat,
)
    requires
        counts_consistent(c, es, len, done),
        edges_within(es, len),
        forall|t: usize| #[trigger] c.contains_key(t) ==> c[t] >= 1,
        c.contains_key(start),
    ensures
        dependency_walk(es, done, start, n).len() == n + 1,
        forall|i: int| 0 <= i <= n ==> #[trigger] c.contains_key(dependency_walk(es, done, start, n)[i]),
        forall|i: int|
            0 <= i < n ==> es.contains(
                (#[trigger] dependency_walk(es, done, start, n)[i + 1], dependency_walk(es, done, start, n)[i]),
            ),
    decreases n,
{
    if n > 0 {
        lemma_dependency_walk(c, es, len, done, start, (n - 1) as nat);
        let w = dependency_walk(es, done, start, (n - 1) as nat);
        let t = w.last();
        assert(c.contains_key(w[n - 1]));
        lemma_unfinished_zero(es, t, done);
        assert(exists|p: usize| es.contains((p, t)) && !done.contains(p));
        let p = unfinished_dependency(es, done, t);
        assert(es.contains((p, t)) && !done.contains(p));
        let j = choose|j: int| 0 <= j < es.len() && es[j] == (p, t);
        assert(es[j].0 < len);
        assert(c.dom().contains(p));
        let w2 = dependency_walk(es, done, start, n);
        assert(w2 == w.push(p));
        assert forall|i: int| 0 <= i <= n implies #[trigger] c.contains_key(w2[i]) by {
            if i < n {
                assert(w2[i] == w[i]);
            }
        }
        assert forall|i: int| 0 <= i < n implies es.contains((#[trigger] w2[i + 1], w2[i])) by {
            if i < n - 1 {
                assert(w2[i + 1] == w[i + 1] && w2[i] == w[i]);
            } else {
                assert(w2[i + 1] == p && w2[i] == t);
            }
        }
    }
}

/// A build whose dependencies have no cycle never gets stuck: while some step is still
/// counted, some counted step has all its dependencies finished, so it has been handed
/// out and its end is still to come.
pub proof fn lemma_progress(c: Map<usize, usize>, es: Seq<(usize, usize)>, len: nat, done: Set<usize>)
    requires
        counts_consistent(c, es, len, done),
        edges_within(es, len),
        !has_cycle(es),
        !c.is_empty(),
        len <= usize::MAX,
    ensures
        exists|t: usize| #[trigger] c.contains_key(t) && c[t] == 0,
{
    if !(exists|t: usize| #[trigger] c.contains_key(t) && c[t] == 0) {
        let start = c.dom().choose();
        assert(c.contains_key(start));
        lemma_dependency_walk(c, es, len, done, start, len);
        let w = dependency_walk(es, done, start, len);
        assert forall|i: int| 0 <= i < w.len() implies #[trigger] w[i] < len by {
            assert(c.contains_key(w[i]));
            assert(c.dom().contains(w[i]));
        }
        lemma_pigeonhole(w, len);
        let (i, j) = choose|i: int, j: int| 0 <= i < w.len() && 0 <= j < w.len() && i != j && w[i] == w[j];
        let (a, b) = if i < j { (i, j) } else { (j, i) };
        let p = Seq::new((b - a + 1) as nat, |x: int| w[b - x]);
        assert(is_walk(es, p)) by {
            assert forall|x: int| 0 <= x < p.len() - 1 implies #[trigger] es.contains((p[x], p[x + 1])) by {
                let m = b - x - 1;
                assert(p[x] == w[m + 1] && p[x + 1] == w[m]);
            }
        }
        assert(is_closed_walk(es, p));
        assert(has_cycle(es));
    }
}

/// Along a valid run of a build whose dependencies have no cycle: each step ends at most
/// once, so the run takes in at most one end per step; and while a step is still counted,
/// some counted step has been handed out and its end is still to come.
pub proof fn lemma_run_progress(es: Seq<(usize, usize)>, len: nat, events: Seq<usize>)
    requires
        valid_run(es, len, events),
        es.no_duplicates(),
        edges_within(es, len),
        len <= usize::MAX,
        !has_cycle(es),
    ensures
        events.no_duplicates(),
        events.len() <= len,
        !counts_after(es, len, events).is_empty() ==> exists|t: usize|
            #[trigger] counts_after(es, len, events).contains_key(t) && counts_after(es, len, events)[t] == 0,
{
    assert forall|j: int, k: int| 0 <= j < events.len() && 0 <= k < events.len() && j != k implies events[j]
        != events[k] by {
        let (a, b) = if j < k { (j, k) } else { (k, j) };
        lemma_valid_run_prefix(es, len, events, b);
        lemma_run_consistent(es, len, events.take(b));
        assert(counts_after(es, len, events.take(b)).contains_key(events[b]));
        assert(events.take(b)[a] == events[a]);
        assert(events.take(b).to_set().contains(events[a]));
    }
    assert forall|k: int| 0 <= k < events.len() implies #[trigger] events[k] < len by {
        lemma_valid_run_prefix(es, len, events, k);
        lemma_run_consistent(es, len, events.take(k));
        assert(counts_after(es, len, events.take(k)).contains_key(events[k]));
        assert(counts_after(es, len, events.take(k)).dom().contains(events[k]));
    }
    if events.len() > len {
        lemma_pigeonhole(events, len);
    }
    lemma_run_consistent(es, len, events);
    if !counts_after(es, len, events).is_empty() {
        lemma_progress(counts_after(es, len, events), es, len, events.to_set());
    }
}

/// Completeness of a release: when step `id` finishes, every unfinished step that waits
/// for it and whose other dependencies have all finished is released, whatever the ids.
pub proof fn lemma_release_complete(
    c: Map<usize, usize>,
    es: Seq<(usize, usize)>,
    len: nat,
    done: Set<usize>,
    id: usize,
    t: usize,
)
    requires
        counts_consistent(c, es, len, done),
        c.contains_key(id),
        es.no_duplicates(),
        t < len,
        t != id,
        !done.contains(t),
        es.contains((id, t)),
        forall|p: usize| #[trigger] es.contains((p, t)) ==> done.insert(id).contains(p),
    ensures
        released_by(c, es, id, t),
{
    assert(c.dom().contains(t));
    assert(c.dom().contains(id));
    assert(!done.contains(id));
    lemma_unfinished_finish(es, t, done, id);
    lemma_unfinished_zero(es, t, done.insert(id));
}

/// Completeness of a run: along a valid run, every step that has not finished and whose
/// dependencies have all finished has been handed out, at the start or at one of the
/// ends taken in so far.
pub proof fn lemma_run_complete(es: Seq<(usize, usize)>, len: nat, events: Seq<usize>, t: usize)
    requires
        valid_run(es, len, events),
        es.no_duplicates(),
        edges_within(es, len),
        len <= usize::MAX,
        t < len,
        !events.to_set().contains(t),
        forall|p: usize| #[trigger] es.contains((p, t)) ==> events.to_set().contains(p),
    ensures
        exists|k: int| -1 <= k < events.len() && handed_out_at(es, len, events, k, t),
    decreases events.len(),
{
    if events.len() == 0 {
        assert forall|p: usize| !#[trigger] es.contains((p, t)) by {
            if es.contains((p, t)) {
                assert(events.to_set().contains(p));
                assert(events.contains(p));
            }
        }
        lemma_unfinished_none_done(es, t);
        lemma_unfinished_zero(es, t, Set::empty());
        assert(handed_out_at(es, len, events, -1, t));
    } else {
        let init = events.drop_last();
        let n = events.len() - 1;
        let id = events[n];
        lemma_run_last(events);
        lemma_valid_run_prefix(es, len, events, n);
        assert(!init.to_set().contains(t));
        if forall|p: usize| #[trigger] es.contains((p, t)) ==> init.to_set().contains(p) {
            lemma_run_complete(es, len, init, t);
            let k = choose|k: int| -1 <= k < init.len() && handed_out_at(es, len, init, k, t);
            assert(handed_out_at(es, len, events, k, t)) by {
                if k >= 0 {
                    assert(init.take(k) =~= events.take(k));
                    assert(init[k] == events[k]);
                }
            }
        } else {
            let p = choose|p: usize| #[trigger] es.contains((p, t)) && !init.to_set().contains(p);
            assert(events.to_set().contains(p));
            assert(p == id);
            lemma_run_consistent(es, len, init);
            assert(counts_after(es, len, events.take(n)).contains_key(id));
            let c = counts_after(es, len, init);
            assert(id != t);
            lemma_release_complete(c, es, len, init.to_set(), id, t);
            assert(handed_out_at(es, len, events, n, t));
        }
    }
}

} // verus!
