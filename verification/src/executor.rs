//! The steps the executor runs, and the container commands that run them.

use vstd::prelude::*;
use crate::env::{EnvVars, env_args, merge_entries, merge_envs, into_args, strings_view};
use crate::models::{BuildContext, Builder, Step, builder_name};
use crate::text::{join, seq_join, trim, trim_seq};

verus! {

/// A step that runs commands inside a container image.
pub struct RunStep {
    pub name: String,
    pub run: Vec<String>,
    pub image: Option<String>,
    pub id: usize,
    pub env: EnvVars,
}

/// A step that builds a container image.
pub struct ContainerizeStep {
    pub name: String,
    pub id: usize,
    pub env: EnvVars,
    pub file: String,
    pub context: String,
    pub image: String,
    pub executor_engine: ContainerRunner,
}

/// The container engine `podman`.
#[derive(Debug, Clone, Copy, PartialEq, Eq, Structural)]
pub struct Podman;

/// The container engine `docker`.
#[derive(Debug, Clone, Copy, PartialEq, Eq, Structural)]
pub struct Docker;

/// The image builder `buildah`.
#[derive(Debug, Clone, Copy, PartialEq, Eq, Structural)]
pub struct Buildah;

/// The engine that builds a container image.
#[derive(Debug, Clone, Copy, PartialEq, Eq, Structural)]
pub enum ContainerRunner {
    Podman(Podman),
    Docker(Docker),
    Buildah(Buildah),
}

/// The engine that each builder names.
pub open spec fn runner_of(b: Builder) -> ContainerRunner {
    match b {
        Builder::Podman => ContainerRunner::Podman(Podman),
        Builder::Docker => ContainerRunner::Docker(Docker),
        Builder::Buildah => ContainerRunner::Buildah(Buildah),
    }
}

/// `s` with its ASCII capitals in lower case.
pub open spec fn ascii_lower(s: Seq<char>) -> Seq<char> {
    s.map_values(|c: char| if 'A' <= c && c <= 'Z' { ((c as u32) + 32) as char } else { c })
}

/// A containerize step is built with the builder its definition names: the program of the
/// engine of each builder is that builder's name in lower case, and no two builders share
/// an engine.
pub proof fn lemma_runner_named_by_builder(a: Builder, b: Builder)
    ensures
        containerizer_program(runner_of(a)) == ascii_lower(builder_name(a)),
        runner_of(a) == runner_of(b) ==> a == b,
{
    reveal_strlit("PODMAN");
    reveal_strlit("DOCKER");
    reveal_strlit("BUILDAH");
    reveal_strlit("podman");
    reveal_strlit("docker");
    reveal_strlit("buildah");
    assert(containerizer_program(runner_of(a)) =~= ascii_lower(builder_name(a)));
}

impl From<Builder> for ContainerRunner {
    fn from(value: Builder) -> (res: Self) {
        match value {
            Builder::Podman => ContainerRunner::Podman(Podman),
            Builder::Docker => ContainerRunner::Docker(Docker),
            Builder::Buildah => ContainerRunner::Buildah(Buildah),
        }
    }
}

impl vstd::std_specs::convert::FromSpecImpl<Builder> for ContainerRunner {
    open spec fn obeys_from_spec() -> bool {
        true
    }

    open spec fn from_spec(v: Builder) -> Self {
        runner_of(v)
    }
}

/// The run step that a step definition becomes under the id `id`.
pub open spec fn run_step_of(id: usize, step: Step) -> RunStep {
    RunStep { name: step.name, image: step.image, run: step.run, id, env: step.env }
}

impl From<(usize, Step)> for RunStep {
    fn from(value: (usize, Step)) -> (res: Self) {
        let (id, value) = value;
        Self { name: value.name, image: value.image, run: value.run, id, env: value.env }
    }
}

impl vstd::std_specs::convert::FromSpecImpl<(usize, Step)> for RunStep {
    open spec fn obeys_from_spec() -> bool {
        true
    }

    open spec fn from_spec(v: (usize, Step)) -> Self {
        run_step_of(v.0, v.1)
    }
}

/// The containerize step that a step definition with a `containerize` section becomes
/// under the id `id`.
pub open spec fn containerize_step_of(id: usize, step: Step) -> ContainerizeStep
    recommends
        step.containerize is Some,
{
    let c = step.containerize->0;
    ContainerizeStep {
        name: step.name,
        id,
        env: step.env,
        file: c.file,
        context: c.context,
        image: c.image,
        executor_engine: runner_of(c.builder),
    }
}

impl ContainerizeStep {
    /// The containerize step of a step definition that has a `containerize` section.
    pub fn from_step(id: usize, step: Step) -> (res: Self)
        requires
            step.containerize is Some,
        ensures
            res == containerize_step_of(id, step),
    {
        let Step { name, env, containerize, .. } = step;
        let containerize = containerize.unwrap();
        Self {
            name,
            id,
            env,
            file: containerize.file,
            context: containerize.context,
            image: containerize.image,
            executor_engine: ContainerRunner::from(containerize.builder),
        }
    }
}

/// The text of an optional string.
pub open spec fn opt_string_view(s: Option<String>) -> Option<Seq<char>> {
    match s {
        Some(t) => Some(t@),
        None => None,
    }
}

/// A copy of an optional string.
pub fn duplicate_opt_string(s: &Option<String>) -> (res: Option<String>)
    ensures
        opt_string_view(res) == opt_string_view(*s),
{
    match s {
        Some(t) => Some(t.clone()),
        None => None,
    }
}

/// A copy of a list of strings.
pub fn duplicate_strings(v: &Vec<String>) -> (res: Vec<String>)
    ensures
        strings_view(res@) == strings_view(v@),
{
    let mut res: Vec<String> = Vec::new();
    let n = v.len();
    let mut i: usize = 0;
    while i < n
        invariant
            n == v@.len(),
            i <= n,
            strings_view(res@) == strings_view(v@).take(i as int),
        decreases n - i,
    {
        push_string(&mut res, v[i].clone());
        proof {
            assert(strings_view(v@).take(i + 1) =~= strings_view(v@).take(i as int).push(v@[i as int]@));
        }
        i = i + 1;
    }
    assert(strings_view(v@).take(n as int) =~= strings_view(v@));
    res
}

/// What a run step holds, as text.
pub struct RunStepView {
    pub name: Seq<char>,
    pub run: Seq<Seq<char>>,
    pub image: Option<Seq<char>>,
    pub id: usize,
    pub env: Seq<(Seq<char>, Seq<char>)>,
}

/// What a containerize step holds, as text.
pub struct ContainerizeStepView {
    pub name: Seq<char>,
    pub id: usize,
    pub env: Seq<(Seq<char>, Seq<char>)>,
    pub file: Seq<char>,
    pub context: Seq<char>,
    pub image: Seq<char>,
    pub executor_engine: ContainerRunner,
}

impl View for RunStep {
    type V = RunStepView;

    open spec fn view(&self) -> RunStepView {
        RunStepView {
            name: self.name@,
            run: strings_view(self.run@),
            image: opt_string_view(self.image),
            id: self.id,
            env: self.env.entries_view(),
        }
    }
}

impl View for ContainerizeStep {
    type V = ContainerizeStepView;

    open spec fn view(&self) -> ContainerizeStepView {
        ContainerizeStepView {
            name: self.name@,
            id: self.id,
            env: self.env.entries_view(),
            file: self.file@,
            context: self.context@,
            image: self.image@,
            executor_engine: self.executor_engine,
        }
    }
}

impl RunStep {
    /// A copy of the step.
    pub fn duplicate(&self) -> (res: Self)
        ensures
            res@ == self@,
    {
        RunStep {
            name: self.name.clone(),
            run: duplicate_strings(&self.run),
            image: duplicate_opt_string(&self.image),
            id: self.id,
            env: self.env.duplicate(),
        }
    }
}

impl ContainerizeStep {
    /// A copy of the step.
    pub fn duplicate(&self) -> (res: Self)
        ensures
            res@ == self@,
    {
        ContainerizeStep {
            name: self.name.clone(),
            id: self.id,
            env: self.env.duplicate(),
            file: self.file.clone(),
            context: self.context.clone(),
            image: self.image.clone(),
            executor_engine: self.executor_engine,
        }
    }
}

/// A program to start, with its arguments.
pub struct CommandSpec {
    pub program: String,
    pub args: Vec<String>,
}

/// The arguments that run `commands` (joined with ` && `) in a throwaway container of
/// `image`, with the environment `env` and the project at `base` mounted as the working
/// directory `/workspace`.
pub open spec fn run_args(
    base: Seq<char>,
    env: Seq<(Seq<char>, Seq<char>)>,
    image: Seq<char>,
    commands: Seq<Seq<char>>,
) -> Seq<Seq<char>> {
    seq!["run"@] + env_args(env) + seq![
        "--rm"@,
        "-v"@,
        base + ":/workspace"@,
        "-w"@,
        "/workspace"@,
        image,
        "sh"@,
        "-c"@,
        seq_join(commands, " && "@),
    ]
}

/// The arguments that pull `image` (without surrounding whitespace).
pub open spec fn pull_args(image: Seq<char>) -> Seq<Seq<char>> {
    seq!["pull"@, trim_seq(image)]
}

/// The arguments that build the image `image` from the file `file` in the directory
/// `context`, with the environment `env`.
pub open spec fn build_args(
    env: Seq<(Seq<char>, Seq<char>)>,
    file: Seq<char>,
    image: Seq<char>,
    context: Seq<char>,
) -> Seq<Seq<char>> {
    seq!["build"@] + env_args(env) + seq!["-f"@, file, "-t"@, image, context]
}

/// The environment of a step: the build's global variables overridden by the step's own.
pub open spec fn step_env(ctx: BuildContext, step_env: EnvVars) -> Seq<(Seq<char>, Seq<char>)> {
    merge_entries(ctx.env.entries_view(), step_env.entries_view())
}

/// Appends `more` to `list`.
fn append_strings(list: &mut Vec<String>, more: Vec<String>)
    ensures
        strings_view(final(list)@) == strings_view(old(list)@) + strings_view(more@),
{
    let n = more.len();
    let mut i: usize = 0;
    let ghost start = strings_view(list@);
    while i < n
        invariant
            n == more@.len(),
            i <= n,
            strings_view(list@) == start + strings_view(more@).take(i as int),
        decreases n - i,
    {
        push_string(list, more[i].clone());
        proof {
            assert(strings_view(more@).take(i + 1) =~= strings_view(more@).take(i as int).push(more@[i as int]@));
            assert(strings_view(list@) =~= start + strings_view(more@).take(i + 1));
        }
        i = i + 1;
    }
    assert(strings_view(more@).take(n as int) =~= strings_view(more@));
}

/// Pushes `s`.
fn push_string(list: &mut Vec<String>, s: String)
    ensures
        strings_view(final(list)@) == strings_view(old(list)@).push(s@),
{
    let ghost before = list@;
    list.push(s);
    assert(list@ == before.push(s));
    assert(strings_view(list@) =~= strings_view(before).push(s@));
}

/// Pushes a copy of the literal text `s`.
fn push_str(list: &mut Vec<String>, s: &str)
    ensures
        strings_view(final(list)@) == strings_view(old(list)@).push(s@),
{
    push_string(list, String::from_str(s));
}

/// The `run` command of a container engine for a run step.
fn run_command_with(program: &str, ctx: &BuildContext, step: &RunStep) -> (res: CommandSpec)
    requires
        step.image is Some,
    ensures
        res.program@ == program@,
        strings_view(res.args@) == run_args(
            ctx.base_path@,
            step_env(*ctx, step.env),
            step.image->0@,
            strings_view(step.run@),
        ),
{
    let envs = merge_envs(&step.env, &ctx.env);
    let env_args_list = into_args(envs);
    let image = step.image.as_ref().unwrap().clone();
    let mut args: Vec<String> = Vec::new();
    push_str(&mut args, "run");
    append_strings(&mut args, env_args_list);
    push_str(&mut args, "--rm");
    push_str(&mut args, "-v");
    push_string(&mut args, ctx.base_path.clone().concat(":/workspace"));
    push_str(&mut args, "-w");
    push_str(&mut args, "/workspace");
    push_string(&mut args, image);
    push_str(&mut args, "sh");
    push_str(&mut args, "-c");
    push_string(&mut args, join(&step.run, " && "));
    proof {
        assert(strings_view(step.run@) == step.run@.map_values(|s: String| s@));
        assert(strings_view(args@) =~= run_args(
            ctx.base_path@,
            step_env(*ctx, step.env),
            step.image->0@,
            strings_view(step.run@),
        ));
    }
    CommandSpec { program: String::from_str(program), args }
}

/// The `pull` command of a container engine.
fn pull_command_with(program: &str, image: &str) -> (res: CommandSpec)
    ensures
        res.program@ == program@,
        strings_view(res.args@) == pull_args(image@),
{
    let mut args: Vec<String> = Vec::new();
    push_str(&mut args, "pull");
    push_string(&mut args, trim(image));
    assert(strings_view(args@) =~= pull_args(image@));
    CommandSpec { program: String::from_str(program), args }
}

/// The `build` command of an image builder for a containerize step.
fn build_command_with(program: &str, ctx: &BuildContext, step: &ContainerizeStep) -> (res: CommandSpec)
    ensures
        res.program@ == program@,
        strings_view(res.args@) == build_args(
            step_env(*ctx, step.env),
            step.file@,
            step.image@,
            step.context@,
        ),
{
    let envs = merge_envs(&step.env, &ctx.env);
    let env_args_list = into_args(envs);
    let mut args: Vec<String> = Vec::new();
    push_str(&mut args, "build");
    append_strings(&mut args, env_args_list);
    push_str(&mut args, "-f");
    push_string(&mut args, step.file.clone());
    push_str(&mut args, "-t");
    push_string(&mut args, step.image.clone());
    push_string(&mut args, step.context.clone());
    assert(strings_view(args@) =~= build_args(
        step_env(*ctx, step.env),
        step.file@,
        step.image@,
        step.context@,
    ));
    CommandSpec { program: String::from_str(program), args }
}

impl Podman {
    /// `podman run ...` for a run step.
    pub fn run_command(&self, ctx: &BuildContext, step: &RunStep) -> (res: CommandSpec)
        requires
            step.image is Some,
        ensures
            res.program@ == "podman"@,
            strings_view(res.args@) == run_args(
                ctx.base_path@,
                step_env(*ctx, step.env),
                step.image->0@,
                strings_view(step.run@),
            ),
    {
        run_command_with("podman", ctx, step)
    }

    /// `podman pull <image>`.
    pub fn pull_command(&self, image: &str) -> (res: CommandSpec)
        ensures
            res.program@ == "podman"@,
            strings_view(res.args@) == pull_args(image@),
    {
        pull_command_with("podman", image)
    }

    /// `podman build ...` for a containerize step.
    pub fn build_command(&self, ctx: &BuildContext, step: &ContainerizeStep) -> (res: CommandSpec)
        ensures
            res.program@ == "podman"@,
            strings_view(res.args@) == build_args(
                step_env(*ctx, step.env),
                step.file@,
                step.image@,
                step.context@,
            ),
    {
        build_command_with("podman", ctx, step)
    }
}

impl Docker {
    /// `docker run ...` for a run step.
    pub fn run_command(&self, ctx: &BuildContext, step: &RunStep) -> (res: CommandSpec)
        requires
            step.image is Some,
        ensures
            res.program@ == "docker"@,
            strings_view(res.args@) == run_args(
                ctx.base_path@,
                step_env(*ctx, step.env),
                step.image->0@,
                strings_view(step.run@),
            ),
    {
        run_command_with("docker", ctx, step)
    }

    /// `docker pull <image>`.
    pub fn pull_command(&self, image: &str) -> (res: CommandSpec)
        ensures
            res.program@ == "docker"@,
            strings_view(res.args@) == pull_args(image@),
    {
        pull_command_with("docker", image)
    }

    /// `docker build ...` for a containerize step.
    pub fn build_command(&self, ctx: &BuildContext, step: &ContainerizeStep) -> (res: CommandSpec)
        ensures
            res.program@ == "docker"@,
            strings_view(res.args@) == build_args(
                step_env(*ctx, step.env),
                step.file@,
                step.image@,
                step.context@,
            ),
    {
        build_command_with("docker", ctx, step)
    }
}

impl Buildah {
    /// `buildah build ...` for a containerize step.
    pub fn build_command(&self, ctx: &BuildContext, step: &ContainerizeStep) -> (res: CommandSpec)
        ensures
            res.program@ == "buildah"@,
            strings_view(res.args@) == build_args(
                step_env(*ctx, step.env),
                step.file@,
                step.image@,
                step.context@,
            ),
    {
        build_command_with("buildah", ctx, step)
    }
}

/// The program of each image builder.
pub open spec fn containerizer_program(r: ContainerRunner) -> Seq<char> {
    match r {
        ContainerRunner::Podman(_) => "podman"@,
        ContainerRunner::Docker(_) => "docker"@,
        ContainerRunner::Buildah(_) => "buildah"@,
    }
}

impl ContainerRunner {
    /// The build command of the engine that a containerize step names.
    pub fn build_command(&self, ctx: &BuildContext, step: &ContainerizeStep) -> (res: CommandSpec)
        ensures
            res.program@ == containerizer_program(*self),
            strings_view(res.args@) == build_args(
                step_env(*ctx, step.env),
                step.file@,
                step.image@,
                step.context@,
            ),
    {
        match self {
            ContainerRunner::Podman(p) => p.build_command(ctx, step),
            ContainerRunner::Docker(d) => d.build_command(ctx, step),
            ContainerRunner::Buildah(b) => b.build_command(ctx, step),
        }
    }
}

} // verus!
