//! A pipeline: the steps of a build definition, numbered in order, and the graph of
//! their dependencies; and the producer that turns a build definition into one.

use vstd::prelude::*;
use petgraph::graphmap::DiGraphMap;
use crate::env::{EnvVars, strings_view};
use crate::executor::{
    ContainerizeStep, ContainerizeStepView, RunStep, RunStepView, ascii_lower, containerize_step_of,
    containerizer_program, lemma_runner_named_by_builder, run_step_of,
};
use crate::graph::{
    add_edge, add_node, contains_edge, graph_edges, in_degree, incoming_count, nodes_of, successors_of, graph_nodes, graph_successors, has_cycle, is_cyclic_directed, new_graph,
    push_absent, push_edge, edges_ascend, lemma_ascending_edges_acyclic,
};
use crate::models::{BuildContext, BuildDefinition, Step, builder_name};

verus! {

/// The id of a step: its position in the pipeline.
pub type StepId = usize;

/// A step as the executor runs it.
pub enum ExecutionStep {
    RunStep(RunStep),
    ContainerizeStep(ContainerizeStep),
}

/// What an execution step holds, as text.
pub enum ExecutionStepView {
    RunStep(RunStepView),
    ContainerizeStep(ContainerizeStepView),
}

impl View for ExecutionStep {
    type V = ExecutionStepView;

    open spec fn view(&self) -> ExecutionStepView {
        match self {
            ExecutionStep::RunStep(s) => ExecutionStepView::RunStep(s@),
            ExecutionStep::ContainerizeStep(s) => ExecutionStepView::ContainerizeStep(s@),
        }
    }
}

impl ExecutionStep {
    /// The step's id.
    pub open spec fn spec_id(&self) -> usize {
        match self {
            ExecutionStep::RunStep(s) => s.id,
            ExecutionStep::ContainerizeStep(s) => s.id,
        }
    }

    /// The step's name.
    pub open spec fn spec_name(&self) -> Seq<char> {
        match self {
            ExecutionStep::RunStep(s) => s.name@,
            ExecutionStep::ContainerizeStep(s) => s.name@,
        }
    }

    /// A copy of the step.
    pub fn duplicate(&self) -> (res: Self)
        ensures
            res@ == self@,
    {
        match self {
            ExecutionStep::RunStep(s) => ExecutionStep::RunStep(s.duplicate()),
            ExecutionStep::ContainerizeStep(s) => ExecutionStep::ContainerizeStep(s.duplicate()),
        }
    }
}

/// The execution step that a step definition becomes under the id `id`: a containerize
/// step where it has a `containerize` section, a run step otherwise.
pub open spec fn execution_step_of(id: usize, step: Step) -> ExecutionStep {
    if step.containerize is Some {
        ExecutionStep::ContainerizeStep(containerize_step_of(id, step))
    } else {
        ExecutionStep::RunStep(run_step_of(id, step))
    }
}

/// The data that every step of a build shares: the project's root and the global environment.
pub struct GlobalData {
    pub project_root: String,
    pub env: EnvVars,
}

/// What a step definition becomes: with a `containerize` section, whatever its other
/// fields, a containerize step that builds the section's image from its file and context
/// with the engine of the builder it names; without one, a run step with the definition's
/// image and commands. Either keeps the definition's name and environment and takes the
/// id it is given.
pub proof fn lemma_execution_step_of(id: usize, step: Step)
    ensures
        match step.containerize {
            Some(c) => execution_step_of(id, step) matches ExecutionStep::ContainerizeStep(s) && s.id == id
                && s.name == step.name && s.env == step.env && s.file == c.file && s.context == c.context
                && s.image == c.image && containerizer_program(s.executor_engine) == ascii_lower(
                builder_name(c.builder),
            ),
            None => execution_step_of(id, step) matches ExecutionStep::RunStep(r) && r.id == id && r.name
                == step.name && r.env == step.env && r.image == step.image && r.run == step.run,
        },
{
    if let Some(c) = step.containerize {
        lemma_runner_named_by_builder(c.builder, c.builder);
    }
}

impl From<BuildContext> for GlobalData {
    fn from(value: BuildContext) -> (res: Self) {
        Self { project_root: value.base_path, env: value.env }
    }
}

impl vstd::std_specs::convert::FromSpecImpl<BuildContext> for GlobalData {
    open spec fn obeys_from_spec() -> bool {
        true
    }

    open spec fn from_spec(v: BuildContext) -> Self {
        GlobalData { project_root: v.base_path, env: v.env }
    }
}

impl From<GlobalData> for BuildContext {
    fn from(value: GlobalData) -> (res: Self) {
        Self { base_path: value.project_root, env: value.env }
    }
}

impl vstd::std_specs::convert::FromSpecImpl<GlobalData> for BuildContext {
    open spec fn obeys_from_spec() -> bool {
        true
    }

    open spec fn from_spec(v: GlobalData) -> Self {
        BuildContext { base_path: v.project_root, env: v.env }
    }
}

/// The ids `0, 1, ..., n - 1`, in order.
pub open spec fn id_range(n: nat) -> Seq<usize> {
    Seq::new(n, |i: int| i as usize)
}

/// The position of the last occurrence of `name` in `names`, or -1 where there is none
/// (a later step with the same name takes the name over).
pub open spec fn last_index_of(names: Seq<Seq<char>>, name: Seq<char>) -> int
    decreases names.len(),
{
    if names.len() == 0 {
        -1
    } else if names.last() == name {
        names.len() - 1
    } else {
        last_index_of(names.drop_last(), name)
    }
}

/// The last occurrence is an occurrence, and no later one exists.
pub proof fn lemma_last_index_of(names: Seq<Seq<char>>, name: Seq<char>)
    ensures
        -1 <= last_index_of(names, name) < names.len(),
        last_index_of(names, name) == -1 <==> !names.contains(name),
        last_index_of(names, name) >= 0 ==> names[last_index_of(names, name)] == name,
        forall|j: int|
            last_index_of(names, name) < j < names.len() ==> #[trigger] names[j] != name,
    decreases names.len(),
{
    if names.len() > 0 {
        let init = names.drop_last();
        lemma_last_index_of(init, name);
        if names.last() != name {
            assert forall|j: int| last_index_of(names, name) < j < names.len() implies #[trigger] names[j]
                != name by {
                if j < names.len() - 1 {
                    assert(names[j] == init[j]);
                }
            }
            if names.contains(name) {
                let k = choose|k: int| 0 <= k < names.len() && names[k] == name;
                assert(init[k] == name);
            }
            if init.contains(name) {
                let k = choose|k: int| 0 <= k < init.len() && init[k] == name;
                assert(names[k] == name);
            }
        } else {
            assert(names[names.len() - 1] == name);
        }
    }
}

/// Where the names are all different, each step's name leads back to that step.
pub proof fn lemma_distinct_names(names: Seq<Seq<char>>, k: int)
    requires
        names.no_duplicates(),
        0 <= k < names.len(),
    ensures
        last_index_of(names, names[k]) == k,
{
    lemma_last_index_of(names, names[k]);
    let r = last_index_of(names, names[k]);
    assert(names.contains(names[k]));
    if r != k {
        assert(names[r] == names[k]);
    }
}

/// The id that the name `name` stands for.
pub open spec fn id_of_name(names: Seq<Seq<char>>, name: Seq<char>) -> usize {
    last_index_of(names, name) as usize
}

/// The edges after the dependencies `deps` of the step at `i`: each dependency's id leads
/// to the id of the step's name, in order.
pub open spec fn step_dep_edges(
    es: Seq<(usize, usize)>,
    names: Seq<Seq<char>>,
    i: int,
    deps: Seq<Seq<char>>,
) -> Seq<(usize, usize)>
    decreases deps.len(),
{
    if deps.len() == 0 {
        es
    } else {
        push_edge(
            step_dep_edges(es, names, i, deps.drop_last()),
            id_of_name(names, deps.last()),
            id_of_name(names, names[i]),
        )
    }
}

/// The edges of the explicit dependencies of all steps, step by step.
pub open spec fn dep_edges(names: Seq<Seq<char>>, deps: Seq<Seq<Seq<char>>>) -> Seq<(usize, usize)>
    decreases deps.len(),
{
    if deps.len() == 0 {
        Seq::empty()
    } else {
        step_dep_edges(dep_edges(names, deps.drop_last()), names, deps.len() - 1, deps.last())
    }
}

/// The edges of the sequential fallback for the first `k` pairs of neighbours: each step
/// depends on the one before it.
pub open spec fn chain_edges(names: Seq<Seq<char>>, k: int) -> Seq<(usize, usize)>
    decreases k,
{
    if k <= 0 {
        Seq::empty()
    } else {
        push_edge(chain_edges(names, k - 1), id_of_name(names, names[k - 1]), id_of_name(names, names[k]))
    }
}

/// Some step names an explicit dependency.
pub open spec fn has_dependency(deps: Seq<Seq<Seq<char>>>) -> bool {
    exists|i: int| 0 <= i < deps.len() && (#[trigger] deps[i]).len() > 0
}

/// The edges of a pipeline with the step names `names` and the explicit dependencies
/// `deps`: those of the dependencies where there are any; otherwise each step depends on
/// the one before it.
pub open spec fn pipeline_edges(names: Seq<Seq<char>>, deps: Seq<Seq<Seq<char>>>) -> Seq<(usize, usize)> {
    if has_dependency(deps) {
        dep_edges(names, deps)
    } else {
        chain_edges(names, names.len() - 1)
    }
}

/// The names of the steps of a definition.
pub open spec fn step_names(steps: Seq<Step>) -> Seq<Seq<char>> {
    steps.map_values(|s: Step| s.name@)
}

/// The explicit dependencies of the steps of a definition.
pub open spec fn step_deps(steps: Seq<Step>) -> Seq<Seq<Seq<char>>> {
    steps.map_values(|s: Step| strings_view(s.depends_on@))
}

/// Every dependency names a step.
pub open spec fn deps_known(names: Seq<Seq<char>>, deps: Seq<Seq<Seq<char>>>) -> bool {
    forall|i: int, j: int|
        0 <= i < deps.len() && 0 <= j < deps[i].len() ==> names.contains(#[trigger] deps[i][j])
}

/// The steps of a definition as the pipeline holds them, numbered in order.
pub open spec fn execution_steps_of(steps: Seq<Step>) -> Seq<ExecutionStep> {
    steps.map(|i: int, s: Step| execution_step_of(i as usize, s))
}

/// Every edge joins two of the first `n` ids.
pub open spec fn edges_within(es: Seq<(usize, usize)>, n: nat) -> bool {
    forall|i: int| 0 <= i < es.len() ==> (#[trigger] es[i]).0 < n && es[i].1 < n
}

/// The steps of a build, numbered in order, with the graph of their dependencies: an edge
/// `(a, b)` says that step `b` waits for step `a`.
pub struct Pipeline {
    pub graph: DiGraphMap<StepId, String>,
    steps: Vec<ExecutionStep>,
    names: Vec<String>,
    next_id: StepId,
}

impl Pipeline {
    /// The steps, by id.
    pub closed spec fn steps_view(&self) -> Seq<ExecutionStep> {
        self.steps@
    }

    /// The names under which the steps were added, by id.
    pub closed spec fn names_view(&self) -> Seq<Seq<char>> {
        strings_view(self.names@)
    }

    /// The dependency edges.
    pub closed spec fn edges(&self) -> Seq<(usize, usize)> {
        graph_edges(self.graph)
    }

    /// The pipeline is well formed: one node per step, numbered from 0 in order, and
    /// edges only between steps, each once; each step carries its own id and name.
    pub closed spec fn wf(&self) -> bool {
        &&& self.steps@.len() == self.next_id
        &&& self.names@.len() == self.next_id
        &&& graph_nodes(self.graph) == id_range(self.next_id as nat)
        &&& edges_within(graph_edges(self.graph), self.next_id as nat)
        &&& graph_edges(self.graph).no_duplicates()
        &&& forall|i: int|
            0 <= i < self.next_id ==> (#[trigger] self.steps@[i]).spec_id() == i
                && self.steps@[i].spec_name() == self.names@[i]@
    }

    /// A pipeline without steps.
    pub fn new() -> (res: Self)
        ensures
            res.wf(),
            res.steps_view() == Seq::<ExecutionStep>::empty(),
            res.names_view() == Seq::<Seq<char>>::empty(),
            res.edges() == Seq::<(usize, usize)>::empty(),
    {
        let res = Self { graph: new_graph(), steps: Vec::new(), names: Vec::new(), next_id: 0 };
        assert(id_range(0) =~= Seq::<usize>::empty());
        assert(graph_nodes(res.graph) =~= Seq::<usize>::empty());
        assert(res.names_view() =~= Seq::<Seq<char>>::empty());
        res
    }

    /// The number of steps.
    pub fn len(&self) -> (res: usize)
        requires
            self.wf(),
        ensures
            res == self.steps_view().len(),
    {
        self.next_id
    }

    /// Whether the pipeline has no step.
    pub fn is_empty(&self) -> (res: bool)
        requires
            self.wf(),
        ensures
            res == (self.steps_view().len() == 0),
    {
        self.next_id == 0
    }

    /// Adds a step under the next id, as a containerize step where it has a `containerize`
    /// section and as a run step otherwise; its name now stands for this id.
    pub fn add_step(&mut self, step_def: Step) -> (id: StepId)
        requires
            old(self).wf(),
            old(self).steps_view().len() < usize::MAX,
        ensures
            final(self).wf(),
            id == old(self).steps_view().len(),
            final(self).steps_view() == old(self).steps_view().push(execution_step_of(id, step_def)),
            final(self).names_view() == old(self).names_view().push(step_def.name@),
            last_index_of(final(self).names_view(), step_def.name@) == id,
            forall|n: Seq<char>|
                n != step_def.name@ ==> #[trigger] last_index_of(final(self).names_view(), n) == last_index_of(
                    old(self).names_view(),
                    n,
                ),
            final(self).edges() == old(self).edges(),
            old(self).grows_to(*final(self)),
    {
        let id = self.next_id;
        let name = step_def.name.clone();
        let ghost def = step_def;
        let step = if step_def.containerize.is_some() {
            ExecutionStep::ContainerizeStep(ContainerizeStep::from_step(id, step_def))
        } else {
            ExecutionStep::RunStep(RunStep::from((id, step_def)))
        };
        assert(step == execution_step_of(id, def));
        self.steps.push(step);
        proof {
            assert(!graph_nodes(self.graph).contains(id)) by {
                if graph_nodes(self.graph).contains(id) {
                    let k = choose|k: int| 0 <= k < graph_nodes(self.graph).len() && graph_nodes(self.graph)[k] == id;
                    assert(id_range(id as nat)[k] == k);
                }
            }
        }
        add_node(&mut self.graph, id);
        let ghost old_names = self.names@;
        self.names.push(name);
        self.next_id = self.next_id + 1;
        proof {
            assert(graph_nodes(self.graph) =~= id_range(self.next_id as nat));
            assert(self.names@ == old_names.push(name));
            assert(strings_view(self.names@) =~= strings_view(old_names).push(def.name@));
            assert(self.names_view().drop_last() =~= old(self).names_view());
            assert(self.names_view().last() == def.name@);
            assert forall|i: int| 0 <= i < self.next_id implies (#[trigger] self.steps@[i]).spec_id() == i
                && self.steps@[i].spec_name() == self.names@[i]@ by {
                if i < id {
                    assert(self.steps@[i] == old(self).steps@[i]);
                    assert(self.names@[i] == old_names[i]);
                }
            }
            assert(self.steps_view().take(id as int) =~= old(self).steps_view());
            assert(self.names_view().take(id as int) =~= old(self).names_view());
            assert(self.edges().take(self.edges().len() as int) =~= self.edges());
        }
        id
    }

    /// The id that `name` stands for: that of the last step added under it.
    fn lookup(&self, name: &String) -> (res: Option<StepId>)
        requires
            self.wf(),
        ensures
            match res {
                Some(i) => i as int == last_index_of(self.names_view(), name@),
                None => last_index_of(self.names_view(), name@) == -1,
            },
    {
        let ghost names = self.names_view();
        proof {
            lemma_last_index_of(names, name@);
        }
        let mut i: usize = self.names.len();
        while i > 0
            invariant
                i <= self.names@.len(),
                names == strings_view(self.names@),
                forall|j: int| i <= j < names.len() ==> #[trigger] names[j] != name@,
                -1 <= last_index_of(names, name@) < names.len(),
                last_index_of(names, name@) >= 0 ==> names[last_index_of(names, name@)] == name@,
                last_index_of(names, name@) == -1 <==> !names.contains(name@),
                forall|j: int|
                    last_index_of(names, name@) < j < names.len() ==> #[trigger] names[j] != name@,
            decreases i,
        {
            if self.names[i - 1] == *name {
                assert(names[i - 1] == name@);
                assert(names.contains(name@));
                return Some(i - 1);
            }
            i = i - 1;
        }
        None
    }

    /// The id that `name` stands for, if a step was added under it.
    pub fn id_of(&self, name: &str) -> (res: Option<StepId>)
        requires
            self.wf(),
        ensures
            match res {
                Some(i) => i as int == last_index_of(self.names_view(), name@),
                None => !self.names_view().contains(name@),
            },
    {
        proof {
            lemma_last_index_of(self.names_view(), name@);
        }
        self.lookup(&String::from_str(name))
    }

    /// A copy of the step with id `step_id`, if there is one.
    pub fn get_step(&self, step_id: &StepId) -> (res: Option<ExecutionStep>)
        requires
            self.wf(),
        ensures
            match res {
                Some(s) => *step_id < self.steps_view().len() && s@ == self.steps_view()[*step_id as int]@,
                None => *step_id >= self.steps_view().len(),
            },
    {
        if *step_id < self.steps.len() {
            Some(self.steps[*step_id].duplicate())
        } else {
            None
        }
    }

    /// Makes the step that `step` names wait for the one that `dependency` names; both
    /// names must be those of steps.
    pub fn depends_on(&mut self, step: &String, dependency: &String)
        requires
            old(self).wf(),
            old(self).names_view().contains(step@),
            old(self).names_view().contains(dependency@),
        ensures
            final(self).wf(),
            final(self).steps_view() == old(self).steps_view(),
            final(self).names_view() == old(self).names_view(),
            final(self).edges() == push_edge(
                old(self).edges(),
                id_of_name(old(self).names_view(), dependency@),
                id_of_name(old(self).names_view(), step@),
            ),
            old(self).grows_to(*final(self)),
    {
        proof {
            lemma_last_index_of(self.names_view(), step@);
            lemma_last_index_of(self.names_view(), dependency@);
        }
        let step = self.lookup(step).unwrap();
        let dependency = self.lookup(dependency).unwrap();
        let ghost nodes = graph_nodes(self.graph);
        let ghost es = graph_edges(self.graph);
        add_edge(&mut self.graph, dependency, step, String::new());
        proof {
            assert(nodes[dependency as int] == dependency);
            assert(nodes[step as int] == step);
            assert(push_absent(push_absent(nodes, dependency), step) == nodes);
            let es2 = graph_edges(self.graph);
            assert(edges_within(es2, self.next_id as nat)) by {
                assert forall|i: int| 0 <= i < es2.len() implies (#[trigger] es2[i]).0 < self.next_id
                    && es2[i].1 < self.next_id by {
                    if i < es.len() {
                        assert(es2[i] == es[i]);
                    }
                }
            }
            assert(es2.take(es.len() as int) =~= es);
            assert(self.steps_view().take(self.steps_view().len() as int) =~= self.steps_view());
            assert(self.names_view().take(self.names_view().len() as int) =~= self.names_view());
        }
    }

    /// The ids of the steps, in order.
    pub fn step_ids(&self) -> (res: Vec<StepId>)
        requires
            self.wf(),
        ensures
            res@ == id_range(self.steps_view().len()),
    {
        nodes_of(&self.graph)
    }

    /// The number of steps that the step `id` waits for.
    pub fn dependency_count(&self, id: StepId) -> (res: usize)
        ensures
            res == in_degree(self.edges(), id),
    {
        incoming_count(&self.graph, id)
    }

    /// The steps that wait for the step `id`, in the order of the graph's adjacency list
    /// for `id`.
    pub closed spec fn dependents_order(&self, id: StepId) -> Seq<StepId> {
        graph_successors(self.graph, id)
    }

    /// The steps that wait for the step `id`, each once, in the order of the graph's
    /// adjacency list for `id`.
    pub fn dependents(&self, id: StepId) -> (res: Vec<StepId>)
        ensures
            res@ == self.dependents_order(id),
            res@.no_duplicates(),
            forall|t: usize| res@.contains(t) <==> self.edges().contains((id, t)),
    {
        successors_of(&self.graph, id)
    }

    /// Whether step `b` waits for step `a`.
    pub fn has_edge(&self, a: StepId, b: StepId) -> (res: bool)
        ensures
            res == self.edges().contains((a, b)),
    {
        contains_edge(&self.graph, a, b)
    }

    /// The pipeline's invariant, as it bears on the dependency edges: they join steps,
    /// none occurs twice, and the steps are numbered by `usize`.
    pub proof fn lemma_wf_edges(&self)
        requires
            self.wf(),
        ensures
            edges_within(self.edges(), self.steps_view().len()),
            self.edges().no_duplicates(),
            self.steps_view().len() <= usize::MAX,
    {
    }

    /// The pipeline's invariant, as it bears on the steps: the step at position `i` has
    /// id `i` and the name under which it was added.
    pub proof fn lemma_wf_steps(&self)
        requires
            self.wf(),
        ensures
            self.names_view().len() == self.steps_view().len(),
            forall|i: int|
                0 <= i < self.steps_view().len() ==> (#[trigger] self.steps_view()[i]).spec_id() == i
                    && self.steps_view()[i].spec_name() == self.names_view()[i],
    {
        assert forall|i: int| 0 <= i < self.steps_view().len() implies (#[trigger] self.steps_view()[i]).spec_id()
            == i && self.steps_view()[i].spec_name() == self.names_view()[i] by {
            assert(self.steps@[i].spec_name() == self.names@[i]@);
        }
    }

    /// `later` came from this pipeline by adding steps and dependencies: the steps, names
    /// and edges of this pipeline stand unchanged at the front of those of `later`.
    pub open spec fn grows_to(&self, later: Pipeline) -> bool {
        &&& self.steps_view().len() <= later.steps_view().len()
        &&& later.steps_view().take(self.steps_view().len() as int) == self.steps_view()
        &&& self.names_view().len() <= later.names_view().len()
        &&& later.names_view().take(self.names_view().len() as int) == self.names_view()
        &&& self.edges().len() <= later.edges().len()
        &&& later.edges().take(self.edges().len() as int) == self.edges()
    }

    /// Every pipeline grows to itself.
    pub proof fn lemma_grows_refl(&self)
        ensures
            self.grows_to(*self),
    {
        assert(self.steps_view().take(self.steps_view().len() as int) =~= self.steps_view());
        assert(self.names_view().take(self.names_view().len() as int) =~= self.names_view());
        assert(self.edges().take(self.edges().len() as int) =~= self.edges());
    }

    /// Growing is transitive: what a series of `add_step` and `depends_on` calls leaves of
    /// a pipeline, the next call leaves too.
    pub proof fn lemma_grows_trans(&self, mid: Pipeline, last: Pipeline)
        requires
            self.grows_to(mid),
            mid.grows_to(last),
        ensures
            self.grows_to(last),
    {
        let n = self.steps_view().len() as int;
        let m = self.names_view().len() as int;
        let e = self.edges().len() as int;
        assert(last.steps_view().take(n) =~= last.steps_view().take(mid.steps_view().len() as int).take(n));
        assert(last.names_view().take(m) =~= last.names_view().take(mid.names_view().len() as int).take(m));
        assert(last.edges().take(e) =~= last.edges().take(mid.edges().len() as int).take(e));
    }

    /// Ids are handed out in order and never reused: once a pipeline has grown from
    /// `earlier`, each step of `earlier` stands under its id as it was, and the next id
    /// that `add_step` gives is above every id of `earlier`.
    pub proof fn lemma_steps_kept(earlier: Pipeline, later: Pipeline)
        requires
            earlier.wf(),
            later.wf(),
            earlier.grows_to(later),
        ensures
            forall|i: int|
                0 <= i < earlier.steps_view().len() ==> #[trigger] later.steps_view()[i]
                    == earlier.steps_view()[i] && later.steps_view()[i].spec_id() == i,
            earlier.steps_view().len() <= later.steps_view().len(),
    {
        later.lemma_wf_steps();
        assert forall|i: int| 0 <= i < earlier.steps_view().len() implies #[trigger] later.steps_view()[i]
            == earlier.steps_view()[i] && later.steps_view()[i].spec_id() == i by {
            assert(later.steps_view().take(earlier.steps_view().len() as int)[i] == later.steps_view()[i]);
        }
    }

    /// Whether the dependencies form a cycle.
    pub fn is_cyclic(&mut self) -> (res: bool)
        ensures
            *final(self) == *old(self),
            res == has_cycle(old(self).edges()),
    {
        is_cyclic_directed(&self.graph)
    }
}

/// Why a build definition was refused.
#[derive(Debug, Clone, Copy, PartialEq, Eq, Structural)]
pub enum PipelineError {
    /// The dependencies form a cycle.
    Cyclic,
}

impl PipelineError {
    /// The message that tells what went wrong.
    pub fn to_string(&self) -> (res: String)
        ensures
            res@ == "Screw this pipeline, its cyclic!"@,
    {
        String::from_str("Screw this pipeline, its cyclic!")
    }
}

/// The producer of pipelines from build definitions.
#[derive(Debug, Default)]
pub struct DefaultPipelineProducer;

/// Adds the steps in order; returns the explicit dependencies of each.
fn add_steps(pipeline: &mut Pipeline, steps: Vec<Step>) -> (deps: Vec<Vec<String>>)
    requires
        old(pipeline).wf(),
        old(pipeline).steps_view().len() == 0,
        old(pipeline).edges().len() == 0,
        steps@.len() < usize::MAX,
    ensures
        final(pipeline).wf(),
        final(pipeline).steps_view() == execution_steps_of(steps@),
        final(pipeline).names_view() == step_names(steps@),
        final(pipeline).edges().len() == 0,
        deps@.len() == steps@.len(),
        forall|k: int| 0 <= k < deps@.len() ==> strings_view((#[trigger] deps@[k])@) == step_deps(steps@)[k],
{
    let ghost all = steps@;
    let n = steps.len();
    let mut rest = steps;
    let mut deps: Vec<Vec<String>> = Vec::new();
    let mut i: usize = 0;
    assert(all.skip(0) =~= all);
    assert(execution_steps_of(all.take(0)) =~= pipeline.steps_view());
    assert(step_names(all.take(0)) =~= pipeline.names_view());
    while i < n
        invariant
            n == all.len(),
            n < usize::MAX,
            i <= n,
            rest@ == all.skip(i as int),
            pipeline.wf(),
            pipeline.steps_view() == execution_steps_of(all.take(i as int)),
            pipeline.names_view() == step_names(all.take(i as int)),
            pipeline.edges().len() == 0,
            deps@.len() == i,
            forall|k: int| 0 <= k < i ==> strings_view((#[trigger] deps@[k])@) == step_deps(all)[k],
        decreases n - i,
    {
        let step = rest.remove(0);
        assert(step == all[i as int]);
        let d = crate::executor::duplicate_strings(&step.depends_on);
        deps.push(d);
        let ghost before_steps = pipeline.steps_view();
        let ghost before_names = pipeline.names_view();
        pipeline.add_step(step);
        proof {
            assert(rest@ =~= all.skip(i + 1));
            assert(execution_steps_of(all.take(i + 1)) =~= before_steps.push(execution_step_of(i, all[i as int])));
            assert(step_names(all.take(i + 1)) =~= before_names.push(all[i as int].name@));
            assert forall|k: int| 0 <= k < i + 1 implies strings_view((#[trigger] deps@[k])@) == step_deps(all)[k] by {
                if k == i {
                    assert(deps@[k] == d);
                }
            }
        }
        i = i + 1;
    }
    assert(all.take(n as int) =~= all);
    deps
}

/// Adds the explicit dependencies, step by step; returns whether there was any.
fn add_dependencies(pipeline: &mut Pipeline, deps: &Vec<Vec<String>>) -> (found: bool)
    requires
        old(pipeline).wf(),
        old(pipeline).edges().len() == 0,
        deps@.len() == old(pipeline).names_view().len(),
        deps_known(old(pipeline).names_view(), deps@.map_values(|d: Vec<String>| strings_view(d@))),
    ensures
        final(pipeline).wf(),
        final(pipeline).steps_view() == old(pipeline).steps_view(),
        final(pipeline).names_view() == old(pipeline).names_view(),
        final(pipeline).edges() == dep_edges(
            old(pipeline).names_view(),
            deps@.map_values(|d: Vec<String>| strings_view(d@)),
        ),
        found == has_dependency(deps@.map_values(|d: Vec<String>| strings_view(d@))),
{
    let ghost names = pipeline.names_view();
    let ghost steps = pipeline.steps_view();
    let ghost dv = deps@.map_values(|d: Vec<String>| strings_view(d@));
    let n = deps.len();
    let mut found = false;
    let mut i: usize = 0;
    assert(dep_edges(names, dv.take(0)) =~= pipeline.edges());
    while i < n
        invariant
            n == dv.len(),
            n == deps@.len(),
            dv == deps@.map_values(|d: Vec<String>| strings_view(d@)),
            i <= n,
            names.len() == n,
            deps_known(names, dv),
            pipeline.wf(),
            pipeline.steps_view() == steps,
            pipeline.names_view() == names,
            pipeline.edges() == dep_edges(names, dv.take(i as int)),
            found == has_dependency(dv.take(i as int)),
        decreases n - i,
    {
        let name_i = pipeline.names[i].clone();
        let m = deps[i].len();
        let mut j: usize = 0;
        let ghost base = pipeline.edges();
        assert(dv[i as int].take(0) =~= Seq::<Seq<char>>::empty());
        while j < m
            invariant
                n == dv.len(),
                n == deps@.len(),
                dv == deps@.map_values(|d: Vec<String>| strings_view(d@)),
                i < n,
                j <= m,
                m == deps@[i as int]@.len(),
                names.len() == n,
                deps_known(names, dv),
                name_i@ == names[i as int],
                pipeline.wf(),
                pipeline.steps_view() == steps,
                pipeline.names_view() == names,
                base == dep_edges(names, dv.take(i as int)),
                pipeline.edges() == step_dep_edges(base, names, i as int, dv[i as int].take(j as int)),
                found == (has_dependency(dv.take(i as int)) || j > 0),
            decreases m - j,
        {
            let dep = &deps[i][j];
            proof {
                assert(dv[i as int][j as int] == dep@);
                assert(names.contains(dv[i as int][j as int]));
                assert(names.contains(names[i as int]));
                assert(dv[i as int].take(j + 1).drop_last() =~= dv[i as int].take(j as int));
            }
            pipeline.depends_on(&name_i, dep);
            found = true;
            j = j + 1;
        }
        proof {
            assert(dv[i as int].take(m as int) =~= dv[i as int]);
            assert(dv.take(i + 1).drop_last() =~= dv.take(i as int));
            if has_dependency(dv.take(i + 1)) && !has_dependency(dv.take(i as int)) {
                let k = choose|k: int| 0 <= k < i + 1 && (#[trigger] dv.take(i + 1)[k]).len() > 0;
                if k < i {
                    assert(dv.take(i as int)[k] == dv.take(i + 1)[k]);
                }
            }
            if has_dependency(dv.take(i as int)) {
                let k = choose|k: int| 0 <= k < i && (#[trigger] dv.take(i as int)[k]).len() > 0;
                assert(dv.take(i + 1)[k] == dv.take(i as int)[k]);
            }
            if m > 0 {
                assert(dv.take(i + 1)[i as int].len() > 0);
            }
        }
        i = i + 1;
    }
    assert(dv.take(n as int) =~= dv);
    found
}

/// Without explicit dependencies there is no dependency edge.
proof fn lemma_no_dependency_edges(names: Seq<Seq<char>>, deps: Seq<Seq<Seq<char>>>)
    requires
        !has_dependency(deps),
    ensures
        dep_edges(names, deps).len() == 0,
    decreases deps.len(),
{
    if deps.len() > 0 {
        let init = deps.drop_last();
        assert(!has_dependency(init)) by {
            if has_dependency(init) {
                let k = choose|k: int| 0 <= k < init.len() && (#[trigger] init[k]).len() > 0;
                assert(deps[k] == init[k]);
            }
        }
        lemma_no_dependency_edges(names, init);
        assert(deps[deps.len() - 1].len() == 0);
    }
}

/// Makes each step wait for the one before it.
fn add_fallback_chain(pipeline: &mut Pipeline)
    requires
        old(pipeline).wf(),
        old(pipeline).edges().len() == 0,
    ensures
        final(pipeline).wf(),
        final(pipeline).steps_view() == old(pipeline).steps_view(),
        final(pipeline).names_view() == old(pipeline).names_view(),
        final(pipeline).edges() == chain_edges(
            old(pipeline).names_view(),
            old(pipeline).names_view().len() - 1,
        ),
{
    let ghost names = pipeline.names_view();
    let ghost steps = pipeline.steps_view();
    let n = pipeline.names.len();
    let mut w: usize = 0;
    assert(chain_edges(names, 0) =~= pipeline.edges());
    while w + 1 < n
        invariant
            n == names.len(),
            w < n || n == 0,
            w == 0 || w < n,
            pipeline.wf(),
            pipeline.steps_view() == steps,
            pipeline.names_view() == names,
            pipeline.edges() == chain_edges(names, w as int),
        decreases n - w,
    {
        let a = pipeline.names[w].clone();
        let b = pipeline.names[w + 1].clone();
        proof {
            assert(names.contains(names[w as int]));
            assert(names.contains(names[w + 1]));
        }
        pipeline.depends_on(&b, &a);
        w = w + 1;
    }
    if n == 0 {
        assert(chain_edges(names, -1) =~= chain_edges(names, 0));
    }
}

/// Whether `name` is the name of one of `steps`.
fn names_a_step(steps: &Vec<Step>, name: &String) -> (res: bool)
    ensures
        res == step_names(steps@).contains(name@),
{
    let n = steps.len();
    let mut i: usize = 0;
    while i < n
        invariant
            n == steps@.len(),
            i <= n,
            forall|k: int| 0 <= k < i ==> #[trigger] step_names(steps@)[k] != name@,
        decreases n - i,
    {
        if steps[i].name == *name {
            assert(step_names(steps@)[i as int] == name@);
            return true;
        }
        i = i + 1;
    }
    proof {
        if step_names(steps@).contains(name@) {
            let k = choose|k: int| 0 <= k < step_names(steps@).len() && step_names(steps@)[k] == name@;
            assert(step_names(steps@)[k] != name@);
        }
    }
    false
}

/// Whether every dependency of every step of `definition` names a step, as
/// [`DefaultPipelineProducer::produce`] requires.
pub fn dependencies_known(definition: &BuildDefinition) -> (res: bool)
    ensures
        res == deps_known(step_names(definition.pipeline@), step_deps(definition.pipeline@)),
{
    let steps = &definition.pipeline;
    let ghost names = step_names(steps@);
    let ghost deps = step_deps(steps@);
    let n = steps.len();
    let mut i: usize = 0;
    while i < n
        invariant
            n == steps@.len(),
            i <= n,
            names == step_names(steps@),
            deps == step_deps(steps@),
            steps@ == definition.pipeline@,
            forall|a: int, b: int| 0 <= a < i && 0 <= b < deps[a].len() ==> names.contains(#[trigger] deps[a][b]),
        decreases n - i,
    {
        let m = steps[i].depends_on.len();
        let mut j: usize = 0;
        while j < m
            invariant
                n == steps@.len(),
                i < n,
                j <= m,
                m == steps@[i as int].depends_on@.len(),
                names == step_names(steps@),
                deps == step_deps(steps@),
                steps@ == definition.pipeline@,
                forall|a: int, b: int| 0 <= a < i && 0 <= b < deps[a].len() ==> names.contains(#[trigger] deps[a][b]),
                forall|b: int| 0 <= b < j ==> names.contains(#[trigger] deps[i as int][b]),
            decreases m - j,
        {
            let dep = &steps[i].depends_on[j];
            assert(deps[i as int][j as int] == dep@);
            if !names_a_step(steps, dep) {
                assert(!deps_known(names, deps));
                return false;
            }
            j = j + 1;
        }
        i = i + 1;
    }
    true
}

impl DefaultPipelineProducer {
    /// Turns a build definition into its global data and its pipeline: the steps are
    /// numbered in order; a step waits for each step it names as a dependency, and where no
    /// step names one, each step waits for the one before it. The definition is refused
    /// when the dependencies form a cycle. Each dependency must name a step.
    pub fn produce(definition: BuildDefinition) -> (res: Result<(GlobalData, Pipeline), PipelineError>)
        requires
            deps_known(step_names(definition.pipeline@), step_deps(definition.pipeline@)),
            definition.pipeline@.len() < usize::MAX,
        ensures
            match res {
                Ok((global_data, pipeline)) => {
                    &&& !has_cycle(pipeline_edges(step_names(definition.pipeline@), step_deps(definition.pipeline@)))
                    &&& global_data.project_root == definition.context.project_root
                    &&& global_data.env == definition.env
                    &&& pipeline.wf()
                    &&& pipeline.steps_view() == execution_steps_of(definition.pipeline@)
                    &&& pipeline.names_view() == step_names(definition.pipeline@)
                    &&& pipeline.edges() == pipeline_edges(step_names(definition.pipeline@), step_deps(definition.pipeline@))
                },
                Err(e) => {
                    &&& e == PipelineError::Cyclic
                    &&& has_cycle(pipeline_edges(step_names(definition.pipeline@), step_deps(definition.pipeline@)))
                },
            },
    {
        let ghost steps = definition.pipeline@;
        let BuildDefinition { env, pipeline: steps_in, context } = definition;
        let global_data = GlobalData { project_root: context.project_root, env };
        let mut pipeline = Pipeline::new();
        let deps = add_steps(&mut pipeline, steps_in);
        proof {
            let dv = deps@.map_values(|d: Vec<String>| strings_view(d@));
            assert(dv =~= step_deps(steps));
        }
        let has_dependency = add_dependencies(&mut pipeline, &deps);
        if !has_dependency {
            proof {
                lemma_no_dependency_edges(pipeline.names_view(), step_deps(steps));
            }
            add_fallback_chain(&mut pipeline);
        }
        if pipeline.is_cyclic() {
            return Err(PipelineError::Cyclic);
        }
        Ok((global_data, pipeline))
    }
}

/// Where no step names a dependency and the names are all different, the sequential
/// fallback makes each step wait for the one before it, and that has no cycle.
pub proof fn lemma_sequential_fallback_acyclic(names: Seq<Seq<char>>, deps: Seq<Seq<Seq<char>>>)
    requires
        !has_dependency(deps),
        names.no_duplicates(),
        names.len() <= usize::MAX,
    ensures
        forall|w: int|
            0 <= w < names.len() - 1 ==> #[trigger] pipeline_edges(names, deps).contains(
                (w as usize, (w + 1) as usize),
            ),
        edges_ascend(pipeline_edges(names, deps)),
        !has_cycle(pipeline_edges(names, deps)),
{
    lemma_chain_edges(names, names.len() - 1);
    lemma_ascending_edges_acyclic(pipeline_edges(names, deps));
}

/// The first `k` fallback edges join each step to the next, and only so.
proof fn lemma_chain_edges(names: Seq<Seq<char>>, k: int)
    requires
        names.no_duplicates(),
        names.len() <= usize::MAX,
        k < names.len(),
    ensures
        forall|w: int| 0 <= w < k ==> #[trigger] chain_edges(names, k).contains((w as usize, (w + 1) as usize)),
        forall|i: int|
            0 <= i < chain_edges(names, k).len() ==> (#[trigger] chain_edges(names, k)[i]).1
                == chain_edges(names, k)[i].0 + 1,
        edges_ascend(chain_edges(names, k)),
    decreases k,
{
    if k > 0 {
        lemma_chain_edges(names, k - 1);
        lemma_distinct_names(names, k - 1);
        lemma_distinct_names(names, k);
        let prev = chain_edges(names, k - 1);
        let e = ((k - 1) as usize, k as usize);
        assert(chain_edges(names, k) == push_edge(prev, e.0, e.1));
        let cur = chain_edges(names, k);
        assert(cur.contains(e)) by {
            if !prev.contains(e) {
                assert(cur[prev.len() as int] == e);
            }
        }
        assert forall|w: int| 0 <= w < k implies #[trigger] cur.contains((w as usize, (w + 1) as usize)) by {
            if w < k - 1 {
                assert(prev.contains((w as usize, (w + 1) as usize)));
                let j = choose|j: int| 0 <= j < prev.len() && prev[j] == (w as usize, (w + 1) as usize);
                assert(cur[j] == prev[j]);
            }
        }
        assert forall|i: int| 0 <= i < cur.len() implies (#[trigger] cur[i]).1 == cur[i].0 + 1 by {
            if i < prev.len() {
                assert(cur[i] == prev[i]);
            }
        }
    }
}

/// The edge `e` joins a step to one of the dependencies it names: it leads from the id of
/// the `j`-th dependency of step `i` to the id of step `i`'s name.
pub open spec fn declared_edge(names: Seq<Seq<char>>, deps: Seq<Seq<Seq<char>>>, e: (usize, usize)) -> bool {
    exists|i: int, j: int|
        0 <= i < deps.len() && 0 <= j < deps[i].len() && e == (
            id_of_name(names, #[trigger] deps[i][j]),
            id_of_name(names, names[i]),
        )
}

/// An edge is in a sequence after `push_edge` exactly when it was before or is the new one.
proof fn lemma_push_edge_contains(es: Seq<(usize, usize)>, a: usize, b: usize, e: (usize, usize))
    ensures
        push_edge(es, a, b).contains(e) <==> es.contains(e) || e == (a, b),
{
    if !es.contains((a, b)) {
        let es2 = es.push((a, b));
        if es2.contains(e) {
            let k = choose|k: int| 0 <= k < es2.len() && es2[k] == e;
            if k < es.len() {
                assert(es[k] == e);
            }
        }
        if es.contains(e) {
            let k = choose|k: int| 0 <= k < es.len() && es[k] == e;
            assert(es2[k] == e);
        }
        if e == (a, b) {
            assert(es2[es.len() as int] == e);
        }
    }
}

/// The edges of one step's dependencies: those before, and one for each dependency.
proof fn lemma_step_dep_edges(
    es: Seq<(usize, usize)>,
    names: Seq<Seq<char>>,
    i: int,
    d: Seq<Seq<char>>,
    e: (usize, usize),
)
    ensures
        step_dep_edges(es, names, i, d).contains(e) <==> es.contains(e) || exists|j: int|
            0 <= j < d.len() && e == (id_of_name(names, #[trigger] d[j]), id_of_name(names, names[i])),
    decreases d.len(),
{
    if d.len() > 0 {
        let init = d.drop_last();
        lemma_step_dep_edges(es, names, i, init, e);
        lemma_push_edge_contains(
            step_dep_edges(es, names, i, init),
            id_of_name(names, d.last()),
            id_of_name(names, names[i]),
            e,
        );
        if exists|j: int| 0 <= j < d.len() && e == (id_of_name(names, #[trigger] d[j]), id_of_name(names, names[i])) {
            let j = choose|j: int| 0 <= j < d.len() && e == (id_of_name(names, #[trigger] d[j]), id_of_name(names, names[i]));
            if j < init.len() {
                assert(init[j] == d[j]);
            } else {
                assert(d[j] == d.last());
            }
        }
        if exists|j: int| 0 <= j < init.len() && e == (id_of_name(names, #[trigger] init[j]), id_of_name(names, names[i])) {
            let j = choose|j: int| 0 <= j < init.len() && e == (id_of_name(names, #[trigger] init[j]), id_of_name(names, names[i]));
            assert(d[j] == init[j]);
        }
        if e == (id_of_name(names, d.last()), id_of_name(names, names[i])) {
            assert(d[d.len() - 1] == d.last());
        }
    }
}

/// Where steps name dependencies, each step waits for exactly the steps it names: every
/// edge is a declared dependency, and every declared dependency is an edge.
pub proof fn lemma_explicit_dependencies(names: Seq<Seq<char>>, deps: Seq<Seq<Seq<char>>>, e: (usize, usize))
    requires
        has_dependency(deps),
    ensures
        pipeline_edges(names, deps).contains(e) <==> declared_edge(names, deps, e),
{
    lemma_dep_edges(names, deps, e);
}

/// The edges of the explicit dependencies are the declared ones.
proof fn lemma_dep_edges(names: Seq<Seq<char>>, deps: Seq<Seq<Seq<char>>>, e: (usize, usize))
    ensures
        dep_edges(names, deps).contains(e) <==> declared_edge(names, deps, e),
    decreases deps.len(),
{
    if deps.len() > 0 {
        let init = deps.drop_last();
        let i = deps.len() - 1;
        lemma_dep_edges(names, init, e);
        lemma_step_dep_edges(dep_edges(names, init), names, i, deps.last(), e);
        if declared_edge(names, deps, e) {
            let (i1, j1) = choose|i1: int, j1: int|
                0 <= i1 < deps.len() && 0 <= j1 < deps[i1].len() && e == (
                    id_of_name(names, #[trigger] deps[i1][j1]),
                    id_of_name(names, names[i1]),
                );
            if i1 < init.len() {
                assert(init[i1][j1] == deps[i1][j1]);
            } else {
                assert(deps.last()[j1] == deps[i1][j1]);
            }
        }
        if declared_edge(names, init, e) {
            let (i1, j1) = choose|i1: int, j1: int|
                0 <= i1 < init.len() && 0 <= j1 < init[i1].len() && e == (
                    id_of_name(names, #[trigger] init[i1][j1]),
                    id_of_name(names, names[i1]),
                );
            assert(deps[i1][j1] == init[i1][j1]);
        }
        if exists|j: int| 0 <= j < deps.last().len() && e == (id_of_name(names, #[trigger] deps.last()[j]), id_of_name(names, names[i])) {
            let j = choose|j: int| 0 <= j < deps.last().len() && e == (id_of_name(names, #[trigger] deps.last()[j]), id_of_name(names, names[i]));
            assert(deps[i][j] == deps.last()[j]);
        }
    }
}

} // verus!
