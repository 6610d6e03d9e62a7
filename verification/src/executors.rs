//! What the executor decides while it runs a step: which command to start next, what to
//! report, and how the step ends. The processes themselves are started by the caller,
//! which reports back how each one exited.

use vstd::prelude::*;
use crate::channels::{ExecutorEvent, GlobalEvent};
use crate::env::strings_view;
use crate::executor::{
    CommandSpec, ContainerizeStep, Podman, RunStep, build_args, containerizer_program, pull_args,
    run_args, step_env,
};
use crate::models::BuildContext;
use crate::pipeline::StepId;

verus! {

/// How a process ended: whether it succeeded, and its exit code where it has one.
#[derive(Debug, Clone, Copy, PartialEq, Eq, Structural)]
pub struct ExitReport {
    pub success: bool,
    pub code: Option<i32>,
}

/// Why a step failed.
#[derive(Debug, Clone)]
pub enum ExecError {
    /// A process could not be started; the message tells why.
    SpawnFailed(String),
    /// Pulling the image exited with this code.
    PullFailed(i32),
    /// Running the step's commands exited with this code.
    RunFailed(i32),
    /// Building the container image exited with this code.
    ContainerizeFailed(i32),
}

impl PartialEq for ExecError {
    fn eq(&self, other: &Self) -> (res: bool) {
        match (self, other) {
            (ExecError::SpawnFailed(a), ExecError::SpawnFailed(b)) => *a == *b,
            (ExecError::PullFailed(a), ExecError::PullFailed(b)) => *a == *b,
            (ExecError::RunFailed(a), ExecError::RunFailed(b)) => *a == *b,
            (ExecError::ContainerizeFailed(a), ExecError::ContainerizeFailed(b)) => *a == *b,
            _ => false,
        }
    }
}

impl vstd::std_specs::cmp::PartialEqSpecImpl for ExecError {
    open spec fn obeys_eq_spec() -> bool {
        true
    }

    open spec fn eq_spec(&self, other: &ExecError) -> bool {
        match (self, other) {
            (ExecError::SpawnFailed(a), ExecError::SpawnFailed(b)) => a@ == b@,
            (ExecError::PullFailed(a), ExecError::PullFailed(b)) => a == b,
            (ExecError::RunFailed(a), ExecError::RunFailed(b)) => a == b,
            (ExecError::ContainerizeFailed(a), ExecError::ContainerizeFailed(b)) => a == b,
            _ => false,
        }
    }
}

/// The character of a decimal digit.
pub open spec fn digit_char(d: nat) -> char {
    seq!['0', '1', '2', '3', '4', '5', '6', '7', '8', '9'][d as int]
}

/// The decimal digits of `n`.
pub open spec fn decimal_digits(n: nat) -> Seq<char>
    decreases n,
{
    if n < 10 {
        seq![digit_char(n)]
    } else {
        decimal_digits(n / 10).push(digit_char(n % 10))
    }
}

/// The decimal text of `i`, with a leading `-` where it is negative.
pub open spec fn decimal_text(i: int) -> Seq<char> {
    if i < 0 {
        seq!['-'] + decimal_digits((-i) as nat)
    } else {
        decimal_digits(i as nat)
    }
}

/// The number that the decimal digits `s` write.
pub open spec fn digits_value(s: Seq<char>) -> int
    decreases s.len(),
{
    if s.len() == 0 {
        0
    } else {
        digits_value(s.drop_last()) * 10 + ((s.last() as int) - ('0' as int))
    }
}

/// Each digit's character is a decimal digit of that value.
proof fn lemma_digit_char(d: nat)
    requires
        d < 10,
    ensures
        '0' <= digit_char(d) <= '9',
        (digit_char(d) as int) - ('0' as int) == d,
{
    let t = seq!['0', '1', '2', '3', '4', '5', '6', '7', '8', '9'];
    assert(t[0] == '0' && t[1] == '1' && t[2] == '2' && t[3] == '3' && t[4] == '4');
    assert(t[5] == '5' && t[6] == '6' && t[7] == '7' && t[8] == '8' && t[9] == '9');
}

/// The decimal digits of `n` are digits, without a leading zero but for `0` itself, and
/// they write `n`.
pub proof fn lemma_decimal_digits(n: nat)
    ensures
        decimal_digits(n).len() > 0,
        forall|i: int| 0 <= i < decimal_digits(n).len() ==> '0' <= #[trigger] decimal_digits(n)[i] <= '9',
        decimal_digits(n)[0] == '0' ==> n == 0 && decimal_digits(n).len() == 1,
        digits_value(decimal_digits(n)) == n,
    decreases n,
{
    if n < 10 {
        lemma_digit_char(n);
        assert(seq![digit_char(n)].drop_last() =~= Seq::<char>::empty());
        assert(digits_value(Seq::<char>::empty()) == 0);
        assert(digits_value(seq![digit_char(n)]) == n);
    } else {
        lemma_decimal_digits(n / 10);
        lemma_digit_char(n % 10);
        let s = decimal_digits(n);
        let r = decimal_digits(n / 10);
        assert(s.drop_last() =~= r);
        assert forall|i: int| 0 <= i < s.len() implies '0' <= #[trigger] s[i] <= '9' by {
            if i < r.len() {
                assert(s[i] == r[i]);
            }
        }
        assert(s[0] == r[0]);
        assert(n / 10 > 0);
        assert(s.last() == digit_char(n % 10));
        assert(digits_value(s) == digits_value(r) * 10 + (n % 10) as int);
        assert(n == (n / 10) * 10 + n % 10) by (nonlinear_arith);
    }
}

/// The decimal text of `i`: a `-` where `i` is negative, then the decimal digits of its
/// magnitude.
pub proof fn lemma_decimal_text(i: int)
    ensures
        i < 0 ==> decimal_text(i).len() > 1 && decimal_text(i)[0] == '-' && digits_value(decimal_text(i).drop_first())
            == -i,
        i >= 0 ==> digits_value(decimal_text(i)) == i && forall|k: int|
            0 <= k < decimal_text(i).len() ==> '0' <= #[trigger] decimal_text(i)[k] <= '9',
{
    if i < 0 {
        lemma_decimal_digits((-i) as nat);
        assert(decimal_text(i).drop_first() =~= decimal_digits((-i) as nat));
    } else {
        lemma_decimal_digits(i as nat);
    }
}

/// The text of a single decimal digit.
fn digit_text(d: u64) -> (res: String)
    requires
        d < 10,
    ensures
        res@ == seq![digit_char(d as nat)],
{
    proof {
        reveal_strlit("0");
        reveal_strlit("1");
        reveal_strlit("2");
        reveal_strlit("3");
        reveal_strlit("4");
        reveal_strlit("5");
        reveal_strlit("6");
        reveal_strlit("7");
        reveal_strlit("8");
        reveal_strlit("9");
    }
    let res = if d == 0 {
        String::from_str("0")
    } else if d == 1 {
        String::from_str("1")
    } else if d == 2 {
        String::from_str("2")
    } else if d == 3 {
        String::from_str("3")
    } else if d == 4 {
        String::from_str("4")
    } else if d == 5 {
        String::from_str("5")
    } else if d == 6 {
        String::from_str("6")
    } else if d == 7 {
        String::from_str("7")
    } else if d == 8 {
        String::from_str("8")
    } else {
        String::from_str("9")
    };
    assert(res@ =~= seq![digit_char(d as nat)]);
    res
}

/// The decimal digits of `n`.
fn digits_text(n: u64) -> (res: String)
    ensures
        res@ == decimal_digits(n as nat),
{
    let mut m = n;
    let mut tail = String::new();
    while m >= 10
        invariant
            decimal_digits(m as nat) + tail@ == decimal_digits(n as nat),
        decreases m,
    {
        let d = m % 10;
        let next = m / 10;
        let digit = digit_text(d);
        let ghost old_tail = tail@;
        tail = digit.concat(tail.as_str());
        proof {
            assert(decimal_digits(m as nat) == decimal_digits(next as nat).push(digit_char(d as nat)));
            assert(decimal_digits(next as nat) + tail@ =~= decimal_digits(m as nat) + old_tail);
        }
        m = next;
    }
    let res = digit_text(m).concat(tail.as_str());
    assert(decimal_digits(m as nat) == seq![digit_char(m as nat)]);
    res
}

/// `i32`'s `Debug` text: its decimal digits, after a `-` where it is negative.
fn format_code(code: i32) -> (res: String)
    ensures
        res@ == decimal_text(code as int),
{
    if code < 0 {
        let magnitude: u64 = (0i64 - (code as i64)) as u64;
        let minus = String::from_str("-");
        proof {
            reveal_strlit("-");
        }
        let res = minus.concat(digits_text(magnitude).as_str());
        assert(res@ =~= decimal_text(code as int));
        res
    } else {
        digits_text(code as u64)
    }
}

/// The message that tells why a step failed.
pub open spec fn error_message(e: ExecError) -> Seq<char> {
    match e {
        ExecError::SpawnFailed(message) => message@,
        ExecError::PullFailed(c) => "Pulling image went wrong! StatusCode: "@ + decimal_text(c as int),
        ExecError::RunFailed(c) => "Pulling image went wrong! StatusCode: "@ + decimal_text(c as int),
        ExecError::ContainerizeFailed(c) => "Containerizing went wrong! StatusCode: "@ + decimal_text(c as int),
    }
}

impl ExecError {
    /// The message that tells why the step failed.
    pub fn to_string(&self) -> (res: String)
        ensures
            res@ == error_message(*self),
    {
        match self {
            ExecError::SpawnFailed(message) => message.clone(),
            ExecError::PullFailed(c) => String::from_str("Pulling image went wrong! StatusCode: ").concat(
                format_code(*c).as_str(),
            ),
            ExecError::RunFailed(c) => String::from_str("Pulling image went wrong! StatusCode: ").concat(
                format_code(*c).as_str(),
            ),
            ExecError::ContainerizeFailed(c) => String::from_str("Containerizing went wrong! StatusCode: ").concat(
                format_code(*c).as_str(),
            ),
        }
    }
}

/// Runs run steps with `podman`: pull the image, then run the commands in it.
pub struct StepExecutor {
    pub runner: Podman,
}

impl StepExecutor {
    pub fn new() -> (res: Self) {
        StepExecutor { runner: Podman }
    }

    /// The start of a run step: report that the image is being pulled, and pull it.
    /// The step must name an image.
    pub fn begin(&self, step: &RunStep) -> (res: (Vec<GlobalEvent>, CommandSpec))
        requires
            step.image is Some,
        ensures
            res.0@ == seq![GlobalEvent::PullingImage],
            res.1.program@ == "podman"@,
            strings_view(res.1.args@) == pull_args(step.image->0@),
    {
        let mut events: Vec<GlobalEvent> = Vec::new();
        events.push(GlobalEvent::PullingImage);
        let command = self.runner.pull_command(step.image.as_ref().unwrap().as_str());
        assert(events@ =~= seq![GlobalEvent::PullingImage]);
        (events, command)
    }

    /// After the pull: where it failed, the step fails with its exit code; otherwise report
    /// that the image is there and the step starts, and run the step's commands.
    pub fn after_pull(&self, ctx: &BuildContext, step: &RunStep, exit: ExitReport) -> (res: (
        Vec<GlobalEvent>,
        Result<CommandSpec, ExecError>,
    ))
        requires
            step.image is Some,
            exit.success || exit.code is Some,
        ensures
            !exit.success ==> res.0@.len() == 0 && res.1 == Err::<CommandSpec, ExecError>(
                ExecError::PullFailed(exit.code->0),
            ),
            exit.success ==> {
                &&& res.0@ == seq![GlobalEvent::ImageFetched, GlobalEvent::StepStarted]
                &&& res.1 matches Ok(command) && command.program@ == "podman"@ && strings_view(command.args@)
                    == run_args(ctx.base_path@, step_env(*ctx, step.env), step.image->0@, strings_view(step.run@))
            },
    {
        let mut events: Vec<GlobalEvent> = Vec::new();
        if !exit.success {
            return (events, Err(ExecError::PullFailed(exit.code.unwrap())));
        }
        events.push(GlobalEvent::ImageFetched);
        events.push(GlobalEvent::StepStarted);
        assert(events@ =~= seq![GlobalEvent::ImageFetched, GlobalEvent::StepStarted]);
        (events, Ok(self.runner.run_command(ctx, step)))
    }

    /// After the run: where it failed, the step fails with its exit code; otherwise report
    /// the end of the step, which is done.
    pub fn after_run(&self, step: &RunStep, exit: ExitReport) -> (res: (Vec<GlobalEvent>, Result<StepId, ExecError>))
        requires
            exit.success || exit.code is Some,
        ensures
            !exit.success ==> res.0@.len() == 0 && res.1 == Err::<StepId, ExecError>(ExecError::RunFailed(exit.code->0)),
            exit.success ==> res.0@ == seq![GlobalEvent::StepEnded] && res.1 == Ok::<StepId, ExecError>(step.id),
    {
        let mut events: Vec<GlobalEvent> = Vec::new();
        if !exit.success {
            return (events, Err(ExecError::RunFailed(exit.code.unwrap())));
        }
        events.push(GlobalEvent::StepEnded);
        assert(events@ =~= seq![GlobalEvent::StepEnded]);
        (events, Ok(step.id))
    }
}

/// Runs containerize steps: build the image with the step's engine.
pub struct ContainerExecutor;

impl ContainerExecutor {
    /// The start of a containerize step: report it, and build the image.
    pub fn begin(&self, ctx: &BuildContext, step: &ContainerizeStep) -> (res: (Vec<GlobalEvent>, CommandSpec))
        ensures
            res.0@ == seq![GlobalEvent::ContainerizingStarted],
            res.1.program@ == containerizer_program(step.executor_engine),
            strings_view(res.1.args@) == build_args(step_env(*ctx, step.env), step.file@, step.image@, step.context@),
    {
        let mut events: Vec<GlobalEvent> = Vec::new();
        events.push(GlobalEvent::ContainerizingStarted);
        assert(events@ =~= seq![GlobalEvent::ContainerizingStarted]);
        (events, step.executor_engine.build_command(ctx, step))
    }

    /// After the build: where it failed, the step fails with its exit code; otherwise report
    /// that the image is built, and the step is done.
    pub fn after_build(&self, step: &ContainerizeStep, exit: ExitReport) -> (res: (
        Vec<GlobalEvent>,
        Result<StepId, ExecError>,
    ))
        requires
            exit.success || exit.code is Some,
        ensures
            !exit.success ==> res.0@.len() == 0 && res.1 == Err::<StepId, ExecError>(
                ExecError::ContainerizeFailed(exit.code->0),
            ),
            exit.success ==> res.0@ == seq![GlobalEvent::ContainerizingDone] && res.1 == Ok::<StepId, ExecError>(step.id),
    {
        let mut events: Vec<GlobalEvent> = Vec::new();
        if !exit.success {
            return (events, Err(ExecError::ContainerizeFailed(exit.code.unwrap())));
        }
        events.push(GlobalEvent::ContainerizingDone);
        assert(events@ =~= seq![GlobalEvent::ContainerizingDone]);
        (events, Ok(step.id))
    }
}

/// What the execute manager tells the scheduler of a step's end: the step's id where it
/// finished; a failure is reported under id 0.
pub fn outcome_event(outcome: Result<StepId, ExecError>) -> (res: ExecutorEvent)
    ensures
        match outcome {
            Ok(id) => res == ExecutorEvent::StepFinished(id),
            Err(_) => res == ExecutorEvent::StepFailed(0),
        },
{
    match outcome {
        Ok(id) => ExecutorEvent::StepFinished(id),
        Err(_) => ExecutorEvent::StepFailed(0),
    }
}

} // verus!
