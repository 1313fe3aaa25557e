//! The daemon's decisions: which cycles to run for a command, what each
//! cycle of the loop is asked to do, and which outcome the process reports.

use vstd::prelude::*;

verus! {

/// Whether a cycle may write to the servers and the state tables.
#[derive(Debug, Clone, Copy, PartialEq, Eq, Structural)]
pub enum CycleMode {
    /// Apply the plan.
    Sync,
    /// Compute and print the plan; change no server or table data.
    DryRun,
}

#[derive(Debug, Clone, Copy, PartialEq, Eq, Structural)]
pub struct CycleRequest {
    pub mode: CycleMode,
    /// Drop state and re-baseline (in `DryRun`, only preview the re-baseline).
    pub reset: bool,
}

/// The command line's subcommands.
#[derive(Debug, Clone, Copy, PartialEq, Eq, Structural)]
pub enum Commands {
    /// Sync iCloud and Fastmail contacts continuously (or once).
    Sync { once: bool, reset: bool },
    /// Print the sync plan without changing either server or the sync state.
    DryRun { reset: bool },
}

/// The parsed command line.
#[derive(Debug, Clone, Copy, PartialEq, Eq, Structural)]
pub struct CommandLine {
    pub command: Commands,
}

/// What the process does for a command.
#[derive(Debug, Clone, Copy, PartialEq, Eq, Structural)]
pub enum Action {
    /// Run one cycle and exit.
    RunCycle(CycleRequest),
    /// Run the polling loop until a shutdown signal.
    RunDaemon { reset: bool },
}

/// The action for a command: `sync --once` and `dry-run` run one cycle in
/// their mode, `sync` runs the loop; `--reset` is passed on.
pub open spec fn action_spec(command: Commands) -> Action {
    match command {
        Commands::Sync { once: true, reset } => Action::RunCycle(
            CycleRequest { mode: CycleMode::Sync, reset },
        ),
        Commands::Sync { once: false, reset } => Action::RunDaemon { reset },
        Commands::DryRun { reset } => Action::RunCycle(CycleRequest { mode: CycleMode::DryRun, reset }),
    }
}

/// The `--reset` flag of a command.
pub open spec fn reset_flag(command: Commands) -> bool {
    match command {
        Commands::Sync { reset, .. } => reset,
        Commands::DryRun { reset } => reset,
    }
}

/// Every command's `--reset` reaches what the process runs unchanged;
/// `sync` alone runs the loop, `sync --once` one applied cycle, and
/// `dry-run` one cycle that changes nothing.
pub proof fn lemma_reset_passed_on(command: Commands)
    ensures
        match action_spec(command) {
            Action::RunCycle(req) => req.reset == reset_flag(command) && (req.mode == CycleMode::DryRun
                <==> command is DryRun) && !(command matches Commands::Sync { once: false, .. }),
            Action::RunDaemon { reset } => reset == reset_flag(command)
                && command matches Commands::Sync { once: false, .. },
        },
{
}

pub fn action_for(command: Commands) -> (r: Action)
    ensures
        r == action_spec(command),
{
    match command {
        Commands::Sync { once: true, reset } => Action::RunCycle(
            CycleRequest { mode: CycleMode::Sync, reset },
        ),
        Commands::Sync { once: false, reset } => Action::RunDaemon { reset },
        Commands::DryRun { reset } => Action::RunCycle(CycleRequest { mode: CycleMode::DryRun, reset }),
    }
}

/// The polling loop's state: whether the next cycle still re-baselines. A
/// failed cycle is retried on the next tick with the same request; `reset`
/// stays set until a cycle succeeds.
#[derive(Debug, Clone, Copy, PartialEq, Eq, Structural)]
pub struct LoopState {
    pub reset: bool,
}

impl LoopState {
    pub fn new(reset: bool) -> (r: LoopState)
        ensures
            r.reset == reset,
    {
        LoopState { reset }
    }

    /// The request for the next cycle.
    pub fn next_request(&self) -> (r: CycleRequest)
        ensures
            r == (CycleRequest { mode: CycleMode::Sync, reset: self.reset }),
    {
        CycleRequest { mode: CycleMode::Sync, reset: self.reset }
    }

    /// Takes a cycle's outcome into account.
    pub fn cycle_finished(&mut self, succeeded: bool)
        ensures
            final(self).reset == (old(self).reset && !succeeded),
    {
        if succeeded {
            self.reset = false;
        }
    }
}

/// The requests a loop started with `reset` makes when its cycles end with
/// `outcomes` (true for success), one per outcome.
pub open spec fn loop_requests(reset: bool, outcomes: Seq<bool>) -> Seq<CycleRequest>
    decreases outcomes.len(),
{
    if outcomes.len() == 0 {
        seq![]
    } else {
        seq![CycleRequest { mode: CycleMode::Sync, reset }] + loop_requests(
            reset && !outcomes[0],
            outcomes.drop_first(),
        )
    }
}

/// `reset` applies to every cycle up to and including the first successful
/// one, and to none after it.
pub proof fn lemma_reset_until_first_success(reset: bool, outcomes: Seq<bool>, k: int)
    requires
        0 <= k < outcomes.len(),
    ensures
        loop_requests(reset, outcomes)[k].reset == (reset && forall|j: int|
            0 <= j < k ==> !#[trigger] outcomes[j]),
        loop_requests(reset, outcomes)[k].mode == CycleMode::Sync,
        loop_requests(reset, outcomes).len() == outcomes.len(),
    decreases k,
{
    lemma_loop_requests_len(reset, outcomes);
    if k > 0 {
        let rest = outcomes.drop_first();
        lemma_reset_until_first_success(reset && !outcomes[0], rest, k - 1);
        assert(loop_requests(reset, outcomes)[k] == loop_requests(reset && !outcomes[0], rest)[k
            - 1]);
        if reset && forall|j: int| 0 <= j < k ==> !#[trigger] outcomes[j] {
            assert(!outcomes[0]);
            assert forall|j: int| 0 <= j < k - 1 implies !#[trigger] rest[j] by {
                assert(rest[j] == outcomes[j + 1]);
            }
        }
        if reset && !outcomes[0] && forall|j: int| 0 <= j < k - 1 ==> !#[trigger] rest[j] {
            assert forall|j: int| 0 <= j < k implies !#[trigger] outcomes[j] by {
                if j > 0 {
                    assert(outcomes[j] == rest[j - 1]);
                }
            }
        }
    }
}

proof fn lemma_loop_requests_len(reset: bool, outcomes: Seq<bool>)
    ensures
        loop_requests(reset, outcomes).len() == outcomes.len(),
    decreases outcomes.len(),
{
    if outcomes.len() > 0 {
        lemma_loop_requests_len(reset && !outcomes[0], outcomes.drop_first());
    }
}

/// The process outcome after closing the state database: the command's
/// error wins over a close error; a close error fails an otherwise
/// successful run.
pub fn finish<E>(result: Result<(), E>, close: Result<(), E>) -> (r: Result<(), E>)
    ensures
        r == (if result is Err {
            result
        } else {
            close
        }),
{
    if result.is_err() {
        result
    } else {
        close
    }
}

/// Dependency log targets that are too noisy at the default levels.
pub open spec fn silenced_targets() -> Seq<Seq<char>> {
    seq![
        "sqlx::query"@,
        "sea_orm"@,
        "warnings::warnings"@,
        "hyper::proto"@,
        "hyper::client"@,
        "hyper_util::client"@,
        "h2"@,
        "rustls"@,
        "tokio_util"@,
        "reqwest"@,
    ]
}

/// One log directive per silenced target: `<target>=off`.
pub fn silenced_directives() -> (r: Vec<String>)
    ensures
        crate::text::strings(r@) == silenced_targets().map_values(|t: Seq<char>| t + "=off"@),
{
    let targets = [
        "sqlx::query",
        "sea_orm",
        "warnings::warnings",
        "hyper::proto",
        "hyper::client",
        "hyper_util::client",
        "h2",
        "rustls",
        "tokio_util",
        "reqwest",
    ];
    let ghost want = silenced_targets().map_values(|t: Seq<char>| t + "=off"@);
    let mut out: Vec<String> = Vec::new();
    let mut i: usize = 0;
    assert(targets@.map_values(|t: &str| t@) =~= silenced_targets());
    while i < 10
        invariant
            i <= 10,
            targets@.len() == 10,
            targets@.map_values(|t: &str| t@) == silenced_targets(),
            want == silenced_targets().map_values(|t: Seq<char>| t + "=off"@),
            crate::text::strings(out@) == want.take(i as int),
        decreases 10 - i,
    {
        let mut d = String::from_str(targets[i]);
        d.append("=off");
        let ghost before = crate::text::strings(out@);
        let ghost dv = d@;
        out.push(d);
        assert(targets@.map_values(|t: &str| t@)[i as int] == targets@[i as int]@);
        assert(crate::text::strings(out@) =~= before.push(dv));
        assert(want.take(i + 1) =~= want.take(i as int).push(want[i as int]));
        i += 1;
    }
    assert(want.take(10) =~= want);
    out
}

} // verus!
