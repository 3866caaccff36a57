//! The run that deletes torrents by the removal tasks: what it asks for next, and what becomes of the
//! answer.

use crate::condition::{ConditionError, ConditionSpec};
use crate::config::{
    config_fault, is_config, load_config, AutoremoveConfig, ConfigError, FaultView,
};
use crate::document::toml_document;
use crate::task::{
    all_wanted, candidate_views, is_cross_seed, is_cross_seed_stats, is_listed, is_measured,
    is_strategy_stats, plan_task, planned, strategy_selects, AutoremoveTask, CandidateView,
    DeleteCandidate, PlanError, StrategyConfig, TaskPlan,
};
use crate::text::{same_text, texts};
use crate::torrent::{build_torrents, is_built, ClientStatus, ListedTorrent, Torrent};
use vstd::prelude::*;

verus! {

/// How long the removal daemon pauses between two cycles, unless it is told otherwise.
pub const DEFAULT_AUTOREMOVE_INTERVAL_SECS: u64 = 600;

/// What a run waits for, or how it has ended.
#[derive(Clone, Copy, PartialEq, Eq, Structural, Debug)]
pub enum AutoremovePhase {
    LoggingIn,
    ReadingStatus,
    Listing,
    ReadingClock,
    /// The free space on the filesystems that the conditions name is measured.
    Measuring,
    Deleting,
    Finished,
    LoginFailed,
    NoSuchTask,
    /// The task that the run is about has failed.
    TaskFailed,
}

/// An answer that a run gets.
pub enum AutoremoveEvent {
    Done,
    Failed,
    Status(ClientStatus),
    /// All torrents, and the seconds since the beginning of 1970 when they were listed.
    Listed(Vec<ListedTorrent>, u64),
    /// The seconds since the beginning of 1970.
    Clock(u64),
    /// The bytes that are free.
    Available(u64),
    /// The pause is over.
    Woken,
}

/// What a run asks for.
pub enum AutoremoveAction {
    Login,
    ReadStatus,
    ListTorrents,
    ReadClock,
    /// The bytes that are free on the filesystem that holds a path.
    MeasureSpace { path: String },
    Delete { hashes: Vec<String>, delete_data: bool },
    /// A pause of so many seconds.
    Sleep(u64),
    Finish(AutoremoveEnding),
}

/// How a run ends.
#[derive(Clone, Copy, PartialEq, Eq, Structural, Debug)]
pub enum AutoremoveEnding {
    /// All tasks were run, and so many of them failed.
    Completed(usize),
    LoginFailed,
    NoSuchTask,
    TaskFailed,
}

/// Why a run cannot begin.
pub enum AutoremoveSetupError {
    ZeroInterval,
    Config(ConfigError),
    NoSuchTask,
}

/// A run over all tasks, or over one, once or again and again.
pub struct AutoremoveRun {
    pub config: AutoremoveConfig,
    pub dry_run: bool,
    /// The name of the one task that the run is about.
    pub selected_task: Option<String>,
    /// The pause between two cycles; `None` if there is but one.
    pub interval_secs: Option<u64>,
    pub cycle: u64,
    pub phase: AutoremovePhase,
    /// The place of the task at hand.
    pub at: usize,
    /// The place behind the last task.
    pub end: usize,
    pub failed_tasks: usize,
    pub client_status: ClientStatus,
    pub torrents: Vec<Torrent>,
    pub now: i64,
    /// The paths whose free space the conditions of the task ask for.
    pub paths: Vec<String>,
    /// The bytes that are free for the first of those paths, as far as they are known.
    pub measured: Vec<Option<u64>>,
    /// The bytes that are free for each condition of each strategy.
    pub available: Vec<Vec<Option<u64>>>,
    /// What the task at hand has come to.
    pub plan: Option<TaskPlan>,
    /// Where the last task failed that could not be planned.
    pub plan_error: Option<PlanError>,
}

/// The paths whose free space the first `count` conditions ask for.
pub open spec fn condition_paths(conditions: Seq<ConditionSpec>, count: nat) -> Seq<Seq<char>>
    decreases count,
{
    if count == 0 {
        Seq::empty()
    } else {
        let before = condition_paths(conditions, (count - 1) as nat);
        match conditions[count - 1] {
            ConditionSpec::FreeSpace { path, .. } => before.push(path@),
            _ => before,
        }
    }
}

/// The paths whose free space the conditions of the first `count` strategies ask for.
pub open spec fn strategy_paths(strategies: Seq<StrategyConfig>, count: nat) -> Seq<Seq<char>>
    decreases count,
{
    if count == 0 {
        Seq::empty()
    } else {
        let conditions = strategies[count - 1].conditions@;
        strategy_paths(strategies, (count - 1) as nat) + condition_paths(
            conditions,
            conditions.len(),
        )
    }
}

/// The bytes that are free for each of the first `count` conditions, where those of the paths that
/// they ask for are listed from a place on.
pub open spec fn condition_space(
    conditions: Seq<ConditionSpec>,
    measured: Seq<Option<u64>>,
    from: int,
    count: nat,
) -> Seq<Option<u64>>
    decreases count,
{
    if count == 0 {
        Seq::empty()
    } else {
        let before = condition_space(conditions, measured, from, (count - 1) as nat);
        match conditions[count - 1] {
            ConditionSpec::FreeSpace { .. } => before.push(
                measured[from + condition_paths(conditions, (count - 1) as nat).len()],
            ),
            _ => before.push(None),
        }
    }
}

/// Whether `available` gives for each condition of each strategy the bytes that are free, where those
/// of the paths that they ask for are listed in turn.
pub open spec fn is_spread(
    strategies: Seq<StrategyConfig>,
    measured: Seq<Option<u64>>,
    available: Seq<Vec<Option<u64>>>,
) -> bool {
    &&& available.len() == strategies.len()
    &&& forall|i: int|
        0 <= i < strategies.len() ==> (#[trigger] available[i])@ == condition_space(
            strategies[i].conditions@,
            measured,
            strategy_paths(strategies, i as nat).len() as int,
            strategies[i].conditions@.len(),
        )
}

/// The paths whose free space the conditions of a task ask for.
pub fn space_paths(strategies: &Vec<StrategyConfig>) -> (paths: Vec<String>)
    ensures
        texts(paths@) == strategy_paths(strategies@, strategies@.len()),
{
    let mut paths: Vec<String> = Vec::new();
    let mut i: usize = 0;
    assert(texts(paths@) =~= Seq::<Seq<char>>::empty());
    while i < strategies.len()
        invariant
            i <= strategies@.len(),
            texts(paths@) == strategy_paths(strategies@, i as nat),
        decreases strategies.len() - i,
    {
        let conditions = &strategies[i].conditions;
        let ghost before = texts(paths@);
        let mut k: usize = 0;
        assert(before + Seq::<Seq<char>>::empty() =~= before);
        while k < conditions.len()
            invariant
                k <= conditions@.len(),
                texts(paths@) == before + condition_paths(conditions@, k as nat),
            decreases conditions.len() - k,
        {
            if let ConditionSpec::FreeSpace { path, .. } = &conditions[k] {
                let ghost sofar = paths@;
                paths.push(path.clone());
                proof {
                    assert(texts(paths@) =~= texts(sofar).push(path@));
                    assert(texts(paths@) =~= before + condition_paths(
                        conditions@,
                        (k + 1) as nat,
                    ));
                }
            }
            k = k + 1;
        }
        i = i + 1;
    }
    paths
}

/// The bytes that are free for each condition of each strategy, where those of the paths that they
/// ask for are listed in turn.
pub fn spread_space(strategies: &Vec<StrategyConfig>, measured: &Vec<Option<u64>>) -> (available:
    Vec<Vec<Option<u64>>>)
    requires
        measured@.len() == strategy_paths(strategies@, strategies@.len()).len(),
    ensures
        is_spread(strategies@, measured@, available@),
        is_measured(strategies@, available@),
{
    let mut available: Vec<Vec<Option<u64>>> = Vec::new();
    let mut from: usize = 0;
    let mut i: usize = 0;
    while i < strategies.len()
        invariant
            i <= strategies@.len(),
            measured@.len() == strategy_paths(strategies@, strategies@.len()).len(),
            from == strategy_paths(strategies@, i as nat).len(),
            available@.len() == i,
            forall|j: int|
                0 <= j < i ==> (#[trigger] available@[j])@ == condition_space(
                    strategies@[j].conditions@,
                    measured@,
                    strategy_paths(strategies@, j as nat).len() as int,
                    strategies@[j].conditions@.len(),
                ) && available@[j]@.len() == strategies@[j].conditions@.len(),
        decreases strategies.len() - i,
    {
        let conditions = &strategies[i].conditions;
        let mut row: Vec<Option<u64>> = Vec::new();
        let mut next: usize = from;
        let mut k: usize = 0;
        proof {
            lemma_strategy_paths_grow(strategies@, (i + 1) as nat, strategies@.len());
        }
        while k < conditions.len()
            invariant
                k <= conditions@.len(),
                row@ == condition_space(conditions@, measured@, from as int, k as nat),
                row@.len() == k,
                next == from + condition_paths(conditions@, k as nat).len(),
                from + condition_paths(conditions@, conditions@.len()).len() <= measured@.len(),
            decreases conditions.len() - k,
        {
            proof {
                lemma_condition_paths_grow(conditions@, (k + 1) as nat, conditions@.len());
            }
            match &conditions[k] {
                ConditionSpec::FreeSpace { .. } => {
                    assert(next < measured.len());
                    row.push(measured[next]);
                    next = next + 1;
                },
                _ => {
                    row.push(None);
                },
            }
            k = k + 1;
        }
        available.push(row);
        from = next;
        i = i + 1;
    }
    available
}

proof fn lemma_condition_paths_grow(conditions: Seq<ConditionSpec>, low: nat, high: nat)
    requires
        low <= high,
    ensures
        condition_paths(conditions, low).len() <= condition_paths(conditions, high).len(),
    decreases high,
{
    if low < high {
        lemma_condition_paths_grow(conditions, low, (high - 1) as nat);
    }
}

proof fn lemma_strategy_paths_grow(strategies: Seq<StrategyConfig>, low: nat, high: nat)
    requires
        low <= high,
    ensures
        strategy_paths(strategies, low).len() <= strategy_paths(strategies, high).len(),
    decreases high,
{
    if low < high {
        lemma_strategy_paths_grow(strategies, low, (high - 1) as nat);
    }
}

/// The seconds since the beginning of 1970 as a signed number, as far as they fit.
pub fn current_unix_timestamp_i64(seconds: u64) -> (signed: Option<i64>)
    ensures
        match signed {
            Some(signed) => signed == seconds,
            None => seconds > i64::MAX,
        },
{
    if seconds <= i64::MAX as u64 {
        Some(seconds as i64)
    } else {
        None
    }
}

/// The place of the first task, from a place on, that has a name.
pub open spec fn task_place(tasks: Seq<AutoremoveTask>, name: Seq<char>, from: nat) -> Option<int>
    decreases tasks.len() - from,
{
    if from >= tasks.len() {
        None
    } else if tasks[from as int].name@ == name {
        Some(from as int)
    } else {
        task_place(tasks, name, from + 1)
    }
}

fn find_task(tasks: &Vec<AutoremoveTask>, name: &str) -> (place: Option<usize>)
    ensures
        match place {
            Some(place) => place < tasks@.len() && task_place(tasks@, name@, 0) == Some(
                place as int,
            ),
            None => task_place(tasks@, name@, 0) is None,
        },
{
    let mut i: usize = 0;
    while i < tasks.len()
        invariant
            i <= tasks@.len(),
            task_place(tasks@, name@, i as nat) == task_place(tasks@, name@, 0),
        decreases tasks.len() - i,
    {
        if same_text(tasks[i].name.as_str(), name) {
            return Some(i);
        }
        i = i + 1;
    }
    None
}

/// Whether there is a task of the name that is asked for, if any is.
pub open spec fn is_task_known(
    tasks: Seq<AutoremoveTask>,
    selected_task: Option<Seq<char>>,
) -> bool {
    match selected_task {
        Some(name) => task_place(tasks, name, 0) is Some,
        None => true,
    }
}

/// Whether there is a task of the name that is asked for, if any is.
pub fn validate_selected_task(config: &AutoremoveConfig, selected_task: Option<&str>) -> (known:
    bool)
    ensures
        known == is_task_known(
            config.tasks@,
            match selected_task {
                Some(name) => Some(name@),
                None => None,
            },
        ),
{
    match selected_task {
        Some(name) => find_task(&config.tasks, name).is_some(),
        None => true,
    }
}

/// What an optional text says.
pub open spec fn selected_name(selected_task: Option<String>) -> Option<Seq<char>> {
    match selected_task {
        Some(name) => Some(name@),
        None => None,
    }
}

/// Where a cycle stands among the tasks.
pub struct TaskPosition {
    pub at: int,
    pub phase: AutoremovePhase,
    pub failed_tasks: int,
}

impl AutoremoveRun {
    /// Where the cycle stands among the tasks.
    pub open spec fn position(self) -> TaskPosition {
        TaskPosition {
            at: self.at as int,
            phase: self.phase,
            failed_tasks: self.failed_tasks as int,
        }
    }

    /// Whether a task is at hand.
    pub open spec fn is_busy(self) -> bool {
        self.phase == AutoremovePhase::ReadingStatus || self.phase == AutoremovePhase::Listing
            || self.phase == AutoremovePhase::ReadingClock || self.phase
            == AutoremovePhase::Measuring || self.phase == AutoremovePhase::Deleting
    }

    /// The strategies of the task at hand.
    pub open spec fn strategies(self) -> Seq<StrategyConfig> {
        self.config.tasks@[self.at as int].strategies@
    }

    /// A task at hand is one of those to be run, the space for it is measured in turn, and only a run
    /// in earnest deletes, and only what was planned.
    pub open spec fn wf(self) -> bool {
        &&& self.is_busy() ==> self.at < self.end
        &&& self.end <= self.config.tasks@.len()
        &&& self.failed_tasks <= self.at
        &&& self.phase == AutoremovePhase::Measuring ==> texts(self.paths@) == strategy_paths(
            self.strategies(),
            self.strategies().len(),
        ) && self.measured@.len() < self.paths@.len()
        &&& self.phase == AutoremovePhase::Deleting ==> !self.dry_run && self.plan is Some
            && self.plan->0.candidates@.len() > 0 && is_plan(self, self.available@, self.plan->0)
        &&& self.interval_secs is Some ==> self.interval_secs->0 > 0
    }
}

/// Where a cycle stands that is done with the task at hand. A failure ends a run that is about one
/// task; else the next task follows.
pub open spec fn task_over(run: AutoremoveRun, failed: bool) -> TaskPosition {
    if failed && run.selected_task is Some {
        TaskPosition {
            at: run.at as int,
            phase: AutoremovePhase::TaskFailed,
            failed_tasks: run.failed_tasks as int,
        }
    } else {
        TaskPosition {
            at: run.at + 1,
            phase: if run.at + 1 < run.end {
                AutoremovePhase::ReadingStatus
            } else {
                AutoremovePhase::Finished
            },
            failed_tasks: run.failed_tasks + if failed {
                1int
            } else {
                0int
            },
        }
    }
}

/// Whether a run is done with the task at hand.
pub open spec fn leaves_task(run: AutoremoveRun, failed: bool, next: AutoremoveRun) -> bool {
    &&& next == (AutoremoveRun {
        at: next.at,
        phase: next.phase,
        failed_tasks: next.failed_tasks,
        ..run
    })
    &&& next.position() == task_over(run, failed)
}

/// Whether a plan is what the task at hand has come to.
pub open spec fn is_plan(run: AutoremoveRun, available: Seq<Vec<Option<u64>>>, plan: TaskPlan) -> bool {
    &&& planned(
        run.strategies(),
        run.client_status,
        available,
        &run.torrents,
        run.now,
        run.strategies().len(),
    ) == Ok::<Seq<CandidateView>, (int, int, ConditionError)>(candidate_views(plan.candidates@))
    &&& plan.strategies@.len() == run.strategies().len()
    &&& forall|i: int|
        0 <= i < plan.strategies@.len() ==> is_strategy_stats(
            run.strategies(),
            run.client_status,
            available,
            &run.torrents,
            run.now,
            i,
            #[trigger] plan.strategies@[i],
        )
    &&& is_cross_seed_stats(
        run.torrents@,
        all_wanted(run.strategies(), &run.torrents, run.torrents@.len()),
        plan.cross_seeds,
    )
}

/// Whether a run that has measured all space goes on by what the task at hand has come to: a failure,
/// or torrents to be deleted, or nothing to do.
pub open spec fn plans_task(run: AutoremoveRun, next: AutoremoveRun) -> bool {
    &&& is_spread(run.strategies(), run.measured@, next.available@)
    &&& match planned(
        run.strategies(),
        run.client_status,
        next.available@,
        &run.torrents,
        run.now,
        run.strategies().len(),
    ) {
        Err((strategy, condition, error)) => {
            &&& next.plan_error matches Some(place) && place.strategy == strategy
                && place.condition == condition && place.error == error
            &&& leaves_task(
                (AutoremoveRun {
                    available: next.available,
                    plan_error: next.plan_error,
                    ..run
                }),
                true,
                next,
            )
        },
        Ok(candidates) => {
            &&& next.plan is Some
            &&& is_plan(run, next.available@, next.plan->0)
            &&& if run.dry_run || candidates.len() == 0 {
                leaves_task(
                    (AutoremoveRun { available: next.available, plan: next.plan, ..run }),
                    false,
                    next,
                )
            } else {
                next == (AutoremoveRun {
                    phase: AutoremovePhase::Deleting,
                    available: next.available,
                    plan: next.plan,
                    ..run
                })
            }
        },
    }
}

/// Whether a run goes on that has measured space for some of the paths.
pub open spec fn measures_on(run: AutoremoveRun, next: AutoremoveRun) -> bool {
    if run.measured@.len() < run.paths@.len() {
        next == (AutoremoveRun { phase: AutoremovePhase::Measuring, ..run })
    } else {
        plans_task(run, next)
    }
}

/// Whether one state of a run follows another on an answer. An answer that the run does not wait for
/// changes nothing.
pub open spec fn autoremove_next(
    run: AutoremoveRun,
    event: AutoremoveEvent,
    next: AutoremoveRun,
) -> bool {
    match (run.phase, event) {
        (AutoremovePhase::LoggingIn, AutoremoveEvent::Done) => {
            &&& next == (AutoremoveRun {
                at: next.at,
                end: next.end,
                phase: next.phase,
                failed_tasks: 0,
                ..run
            })
            &&& match selected_name(run.selected_task) {
                None => next.at == 0 && next.end == run.config.tasks@.len() && next.phase == (
                if run.config.tasks@.len() > 0 {
                    AutoremovePhase::ReadingStatus
                } else {
                    AutoremovePhase::Finished
                }),
                Some(name) => match task_place(run.config.tasks@, name, 0) {
                    Some(place) => next.at == place && next.end == place + 1 && next.phase
                        == AutoremovePhase::ReadingStatus,
                    None => next.at == 0 && next.end == 0 && next.phase
                        == AutoremovePhase::NoSuchTask,
                },
            }
        },
        (AutoremovePhase::LoggingIn, AutoremoveEvent::Failed) => next == (AutoremoveRun {
            phase: AutoremovePhase::LoginFailed,
            ..run
        }),
        (AutoremovePhase::ReadingStatus, AutoremoveEvent::Status(client_status)) => next == (
        AutoremoveRun { phase: AutoremovePhase::Listing, client_status, ..run }),
        (AutoremovePhase::Listing, AutoremoveEvent::Listed(listed, now)) => {
            &&& next == (AutoremoveRun {
                phase: AutoremovePhase::ReadingClock,
                torrents: next.torrents,
                ..run
            })
            &&& next.torrents@.len() == listed@.len()
            &&& forall|i: int|
                0 <= i < listed@.len() ==> is_built(listed@, now, i, #[trigger] next.torrents@[i])
        },
        (AutoremovePhase::ReadingClock, AutoremoveEvent::Clock(seconds)) => if seconds > i64::MAX {
            leaves_task(run, true, next)
        } else {
            &&& texts(next.paths@) == strategy_paths(run.strategies(), run.strategies().len())
            &&& exists|start: AutoremoveRun|
                start.measured@.len() == 0 && start == (AutoremoveRun {
                    now: seconds as i64,
                    paths: next.paths,
                    measured: start.measured,
                    ..run
                }) && #[trigger] measures_on(start, next)
        },
        (AutoremovePhase::Measuring, AutoremoveEvent::Available(bytes)) => takes_measure(
            run,
            Some(bytes),
            next,
        ),
        (AutoremovePhase::Measuring, AutoremoveEvent::Failed) => takes_measure(run, None, next),
        (AutoremovePhase::Deleting, AutoremoveEvent::Done) => leaves_task(run, false, next),
        (AutoremovePhase::Deleting, AutoremoveEvent::Failed) | (
            AutoremovePhase::ReadingStatus,
            AutoremoveEvent::Failed,
        ) | (AutoremovePhase::Listing, AutoremoveEvent::Failed) | (
            AutoremovePhase::ReadingClock,
            AutoremoveEvent::Failed,
        ) => leaves_task(run, true, next),
        (AutoremovePhase::Finished, AutoremoveEvent::Woken) | (
            AutoremovePhase::LoginFailed,
            AutoremoveEvent::Woken,
        ) | (AutoremovePhase::NoSuchTask, AutoremoveEvent::Woken) | (
            AutoremovePhase::TaskFailed,
            AutoremoveEvent::Woken,
        ) => if run.interval_secs is Some {
            &&& next == (AutoremoveRun {
                cycle: next.cycle,
                phase: AutoremovePhase::LoggingIn,
                at: 0,
                failed_tasks: 0,
                ..run
            })
            &&& next.cycle == (if run.cycle < u64::MAX {
                run.cycle + 1
            } else {
                run.cycle as int
            })
        } else {
            next == run
        },
        _ => next == run,
    }
}

/// Whether a run takes the bytes that are free for the path at hand, as far as they are known.
pub open spec fn takes_measure(
    run: AutoremoveRun,
    bytes: Option<u64>,
    next: AutoremoveRun,
) -> bool {
    exists|start: AutoremoveRun|
        start.measured@ == run.measured@.push(bytes) && start == (AutoremoveRun {
            measured: start.measured,
            ..run
        }) && #[trigger] measures_on(start, next)
}

/// The hashes of candidates.
pub open spec fn candidate_hashes(candidates: Seq<DeleteCandidate>) -> Seq<Seq<char>> {
    Seq::new(candidates.len(), |i: int| candidates[i].hash@)
}

/// Whether an action is what a run asks for.
pub open spec fn is_autoremove_action(run: AutoremoveRun, action: AutoremoveAction) -> bool {
    match run.phase {
        AutoremovePhase::LoggingIn => action is Login,
        AutoremovePhase::ReadingStatus => action is ReadStatus,
        AutoremovePhase::Listing => action is ListTorrents,
        AutoremovePhase::ReadingClock => action is ReadClock,
        AutoremovePhase::Measuring => action matches AutoremoveAction::MeasureSpace { path }
            && path@ == run.paths@[run.measured@.len() as int]@,
        AutoremovePhase::Deleting => action matches AutoremoveAction::Delete { hashes, delete_data }
            && texts(hashes@) == candidate_hashes(run.plan->0.candidates@) && delete_data
            == run.config.tasks@[run.at as int].delete_data,
        AutoremovePhase::Finished => ends_with(
            run,
            action,
            AutoremoveEnding::Completed(run.failed_tasks),
        ),
        AutoremovePhase::LoginFailed => ends_with(run, action, AutoremoveEnding::LoginFailed),
        AutoremovePhase::NoSuchTask => ends_with(run, action, AutoremoveEnding::NoSuchTask),
        AutoremovePhase::TaskFailed => ends_with(run, action, AutoremoveEnding::TaskFailed),
    }
}

/// Whether an action ends a cycle: by a pause if another follows, else for good.
pub open spec fn ends_with(
    run: AutoremoveRun,
    action: AutoremoveAction,
    ending: AutoremoveEnding,
) -> bool {
    match run.interval_secs {
        Some(seconds) => action == AutoremoveAction::Sleep(seconds),
        None => action == AutoremoveAction::Finish(ending),
    }
}

fn hashes_of(candidates: &Vec<DeleteCandidate>) -> (hashes: Vec<String>)
    ensures
        texts(hashes@) == candidate_hashes(candidates@),
{
    let mut hashes: Vec<String> = Vec::new();
    let mut i: usize = 0;
    while i < candidates.len()
        invariant
            i <= candidates@.len(),
            hashes@.len() == i,
            forall|j: int| 0 <= j < i ==> (#[trigger] hashes@[j])@ == candidates@[j].hash@,
        decreases candidates.len() - i,
    {
        hashes.push(candidates[i].hash.clone());
        i = i + 1;
    }
    assert(texts(hashes@) =~= candidate_hashes(candidates@));
    hashes
}

impl AutoremoveRun {
    fn ending(&self, ending: AutoremoveEnding) -> (action: AutoremoveAction)
        ensures
            ends_with(*self, action, ending),
    {
        match self.interval_secs {
            Some(seconds) => AutoremoveAction::Sleep(seconds),
            None => AutoremoveAction::Finish(ending),
        }
    }

    /// What the run asks for.
    pub fn action(&self) -> (action: AutoremoveAction)
        requires
            self.wf(),
        ensures
            is_autoremove_action(*self, action),
    {
        match self.phase {
            AutoremovePhase::LoggingIn => AutoremoveAction::Login,
            AutoremovePhase::ReadingStatus => AutoremoveAction::ReadStatus,
            AutoremovePhase::Listing => AutoremoveAction::ListTorrents,
            AutoremovePhase::ReadingClock => AutoremoveAction::ReadClock,
            AutoremovePhase::Measuring => AutoremoveAction::MeasureSpace {
                path: self.paths[self.measured.len()].clone(),
            },
            AutoremovePhase::Deleting => {
                let hashes: Vec<String> = match &self.plan {
                    Some(plan) => hashes_of(&plan.candidates),
                    None => Vec::new(),
                };
                AutoremoveAction::Delete {
                    hashes,
                    delete_data: self.config.tasks[self.at].delete_data,
                }
            },
            AutoremovePhase::Finished => self.ending(
                AutoremoveEnding::Completed(self.failed_tasks),
            ),
            AutoremovePhase::LoginFailed => self.ending(AutoremoveEnding::LoginFailed),
            AutoremovePhase::NoSuchTask => self.ending(AutoremoveEnding::NoSuchTask),
            AutoremovePhase::TaskFailed => self.ending(AutoremoveEnding::TaskFailed),
        }
    }

    /// Leaves the task at hand.
    fn leave_task(&mut self, failed: bool)
        requires
            old(self).at < old(self).end <= old(self).config.tasks@.len(),
            old(self).failed_tasks <= old(self).at,
            old(self).interval_secs is Some ==> old(self).interval_secs->0 > 0,
        ensures
            leaves_task(*old(self), failed, *final(self)),
            final(self).wf(),
    {
        if failed && self.selected_task.is_some() {
            self.phase = AutoremovePhase::TaskFailed;
        } else {
            self.at = self.at + 1;
            if failed {
                self.failed_tasks = self.failed_tasks + 1;
            }
            self.phase = if self.at < self.end {
                AutoremovePhase::ReadingStatus
            } else {
                AutoremovePhase::Finished
            };
        }
    }

    /// Asks for the space of the next path, or plans the task at hand.
    fn measure_on(&mut self)
        requires
            old(self).at < old(self).end <= old(self).config.tasks@.len(),
            old(self).failed_tasks <= old(self).at,
            old(self).interval_secs is Some ==> old(self).interval_secs->0 > 0,
            texts(old(self).paths@) == strategy_paths(
                old(self).strategies(),
                old(self).strategies().len(),
            ),
            old(self).measured@.len() <= old(self).paths@.len(),
        ensures
            measures_on(*old(self), *final(self)),
            final(self).wf(),
    {
        assert(texts(self.paths@).len() == self.paths@.len());
        if self.measured.len() < self.paths.len() {
            self.phase = AutoremovePhase::Measuring;
            return;
        }
        let task = &self.config.tasks[self.at];
        let available = spread_space(&task.strategies, &self.measured);
        match plan_task(task, &self.client_status, &available, &self.torrents, self.now) {
            Err(error) => {
                self.available = available;
                self.plan_error = Some(error);
                self.leave_task(true);
            },
            Ok(plan) => {
                let idle: bool = self.dry_run || plan.candidates.len() == 0;
                assert(candidate_views(plan.candidates@).len() == plan.candidates@.len());
                self.available = available;
                self.plan = Some(plan);
                if idle {
                    self.leave_task(false);
                } else {
                    self.phase = AutoremovePhase::Deleting;
                }
            },
        }
    }

    /// Takes the bytes that are free for the path at hand, as far as they are known.
    fn take_measure(&mut self, bytes: Option<u64>)
        requires
            old(self).wf(),
            old(self).phase == AutoremovePhase::Measuring,
        ensures
            takes_measure(*old(self), bytes, *final(self)),
            final(self).wf(),
    {
        self.measured.push(bytes);
        let ghost start = *self;
        self.measure_on();
        assert(measures_on(start, *self));
    }

    /// Takes an answer.
    pub fn handle(&mut self, event: AutoremoveEvent)
        requires
            old(self).wf(),
        ensures
            final(self).wf(),
            autoremove_next(*old(self), event, *final(self)),
    {
        match (self.phase, event) {
            (AutoremovePhase::LoggingIn, AutoremoveEvent::Done) => {
                self.failed_tasks = 0;
                match &self.selected_task {
                    None => {
                        self.at = 0;
                        self.end = self.config.tasks.len();
                        self.phase = if self.end > 0 {
                            AutoremovePhase::ReadingStatus
                        } else {
                            AutoremovePhase::Finished
                        };
                    },
                    Some(name) => {
                        match find_task(&self.config.tasks, name.as_str()) {
                            Some(place) => {
                                assert(place < self.config.tasks.len());
                                self.at = place;
                                self.end = place + 1;
                                self.phase = AutoremovePhase::ReadingStatus;
                            },
                            None => {
                                self.at = 0;
                                self.end = 0;
                                self.phase = AutoremovePhase::NoSuchTask;
                            },
                        }
                    },
                }
            },
            (AutoremovePhase::LoggingIn, AutoremoveEvent::Failed) => {
                self.phase = AutoremovePhase::LoginFailed;
            },
            (AutoremovePhase::ReadingStatus, AutoremoveEvent::Status(client_status)) => {
                self.client_status = client_status;
                self.phase = AutoremovePhase::Listing;
            },
            (AutoremovePhase::Listing, AutoremoveEvent::Listed(listed, now)) => {
                self.torrents = build_torrents(&listed, now);
                self.phase = AutoremovePhase::ReadingClock;
            },
            (AutoremovePhase::ReadingClock, AutoremoveEvent::Clock(seconds)) => {
                match current_unix_timestamp_i64(seconds) {
                    None => {
                        self.leave_task(true);
                    },
                    Some(now) => {
                        self.now = now;
                        self.paths = space_paths(&self.config.tasks[self.at].strategies);
                        self.measured = Vec::new();
                        let ghost start = *self;
                        self.measure_on();
                        assert(measures_on(start, *self));
                    },
                }
            },
            (AutoremovePhase::Measuring, AutoremoveEvent::Available(bytes)) => {
                self.take_measure(Some(bytes));
            },
            (AutoremovePhase::Measuring, AutoremoveEvent::Failed) => {
                self.take_measure(None);
            },
            (AutoremovePhase::Deleting, AutoremoveEvent::Done) => {
                self.leave_task(false);
            },
            (AutoremovePhase::Deleting, AutoremoveEvent::Failed) | (
                AutoremovePhase::ReadingStatus,
                AutoremoveEvent::Failed,
            ) | (AutoremovePhase::Listing, AutoremoveEvent::Failed) | (
                AutoremovePhase::ReadingClock,
                AutoremoveEvent::Failed,
            ) => {
                self.leave_task(true);
            },
            (AutoremovePhase::Finished, AutoremoveEvent::Woken) | (
                AutoremovePhase::LoginFailed,
                AutoremoveEvent::Woken,
            ) | (AutoremovePhase::NoSuchTask, AutoremoveEvent::Woken) | (
                AutoremovePhase::TaskFailed,
                AutoremoveEvent::Woken,
            ) => {
                if self.interval_secs.is_some() {
                    if self.cycle < u64::MAX {
                        self.cycle = self.cycle + 1;
                    }
                    self.at = 0;
                    self.failed_tasks = 0;
                    self.phase = AutoremovePhase::LoggingIn;
                }
            },
            _ => {},
        }
    }
}

/// Whether a configuration is the one that a text states.
pub open spec fn is_loaded(raw: Seq<char>, config: AutoremoveConfig) -> bool {
    toml_document(raw) matches Ok(root) && config_fault(root) is None && is_config(root, config)
}

/// Whether an error tells what is wrong with the text of a configuration.
pub open spec fn is_load_error(raw: Seq<char>, error: ConfigError) -> bool {
    match toml_document(raw) {
        Ok(root) => config_fault(root) == Some(error@),
        Err(message) => error@ == FaultView::Syntax(message),
    }
}

/// Whether a run is at the beginning of its first cycle.
pub open spec fn is_autoremove_start(
    run: AutoremoveRun,
    dry_run: bool,
    selected_task: Option<String>,
    interval_secs: Option<u64>,
) -> bool {
    &&& run.wf()
    &&& run.dry_run == dry_run
    &&& run.selected_task == selected_task
    &&& run.interval_secs == interval_secs
    &&& run.cycle == 1
    &&& run.phase == AutoremovePhase::LoggingIn
}

/// Begins a run with a configuration.
pub fn start_autoremove_run(
    config: AutoremoveConfig,
    dry_run: bool,
    selected_task: Option<String>,
    interval_secs: Option<u64>,
) -> (run: AutoremoveRun)
    requires
        interval_secs is Some ==> interval_secs->0 > 0,
    ensures
        run.config == config,
        is_autoremove_start(run, dry_run, selected_task, interval_secs),
{
    let torrents: Vec<Torrent> = Vec::new();
    let paths: Vec<String> = Vec::new();
    let measured: Vec<Option<u64>> = Vec::new();
    let available: Vec<Vec<Option<u64>>> = Vec::new();
    AutoremoveRun {
        config,
        dry_run,
        selected_task,
        interval_secs,
        cycle: 1,
        phase: AutoremovePhase::LoggingIn,
        at: 0,
        end: 0,
        failed_tasks: 0,
        client_status: ClientStatus {
            download_speed: 0,
            total_downloaded: 0,
            upload_speed: 0,
            total_uploaded: 0,
            free_space_on_disk: None,
        },
        torrents,
        now: 0,
        paths,
        measured,
        available,
        plan: None,
        plan_error: None,
    }
}

/// Begins a run over all tasks of a configuration, or over one of them.
pub fn run_autoremove(raw: &str, dry_run: bool, selected_task: Option<String>) -> (outcome: Result<
    AutoremoveRun,
    AutoremoveSetupError,
>)
    ensures
        match outcome {
            Ok(run) => is_loaded(raw@, run.config) && is_autoremove_start(
                run,
                dry_run,
                selected_task,
                None,
            ),
            Err(error) => error matches AutoremoveSetupError::Config(error) && is_load_error(
                raw@,
                error,
            ),
        },
{
    match load_config(raw) {
        Ok(config) => Ok(start_autoremove_run(config, dry_run, selected_task, None)),
        Err(error) => Err(AutoremoveSetupError::Config(error)),
    }
}

/// Begins a run that goes over all tasks of a configuration, or over one of them, again and again,
/// with a pause in between. The one task has to exist.
pub fn run_autoremove_daemon(
    raw: &str,
    dry_run: bool,
    selected_task: Option<String>,
    interval_secs: u64,
) -> (outcome: Result<AutoremoveRun, AutoremoveSetupError>)
    ensures
        match outcome {
            Ok(run) => {
                &&& interval_secs > 0
                &&& is_loaded(raw@, run.config)
                &&& is_task_known(run.config.tasks@, selected_name(selected_task))
                &&& is_autoremove_start(run, dry_run, selected_task, Some(interval_secs))
            },
            Err(AutoremoveSetupError::ZeroInterval) => interval_secs == 0,
            Err(AutoremoveSetupError::Config(error)) => interval_secs > 0 && is_load_error(
                raw@,
                error,
            ),
            Err(AutoremoveSetupError::NoSuchTask) => interval_secs > 0 && exists|
                config: AutoremoveConfig,
            |
                #[trigger] is_loaded(raw@, config) && !is_task_known(
                    config.tasks@,
                    selected_name(selected_task),
                ),
        },
{
    if interval_secs == 0 {
        return Err(AutoremoveSetupError::ZeroInterval);
    }
    let config = match load_config(raw) {
        Ok(config) => config,
        Err(error) => {
            return Err(AutoremoveSetupError::Config(error));
        },
    };
    assert(is_loaded(raw@, config));
    let known: bool = match &selected_task {
        Some(name) => validate_selected_task(&config, Some(name.as_str())),
        None => true,
    };
    if !known {
        return Err(AutoremoveSetupError::NoSuchTask);
    }
    Ok(start_autoremove_run(config, dry_run, selected_task, Some(interval_secs)))
}

/// A dry run deletes nothing.
pub proof fn law_dry_run_deletes_nothing(run: AutoremoveRun, action: AutoremoveAction)
    requires
        run.wf(),
        run.dry_run,
        is_autoremove_action(run, action),
    ensures
        !(action is Delete),
{
}

/// In a run over all tasks a task that fails does not keep the later ones from being run: the next one
/// follows, and the failure is counted.
pub proof fn law_failed_task_is_followed_by_next(run: AutoremoveRun, next: AutoremoveRun)
    requires
        run.wf(),
        run.is_busy(),
        run.phase != AutoremovePhase::Measuring,
        run.selected_task is None,
        autoremove_next(run, AutoremoveEvent::Failed, next),
    ensures
        next.failed_tasks == run.failed_tasks + 1,
        next.at == run.at + 1,
        next.at < next.end ==> next.phase == AutoremovePhase::ReadingStatus,
        next.at >= next.end ==> next.phase == AutoremovePhase::Finished,
        next.config == run.config,
        next.end == run.end,
{
}

/// A run in cycles never ends: whatever became of a cycle, the next one follows after the pause, with
/// the configuration that was read at the start.
pub proof fn law_daemon_goes_on(run: AutoremoveRun, action: AutoremoveAction, next: AutoremoveRun)
    requires
        run.wf(),
        run.interval_secs is Some,
        is_autoremove_action(run, action),
    ensures
        !(action is Finish),
        action is Sleep && autoremove_next(run, AutoremoveEvent::Woken, next) ==> next.phase
            == AutoremovePhase::LoggingIn && next.config == run.config,
{
}

/// A request to delete names no torrent twice.
pub proof fn law_torrents_are_deleted_once(run: AutoremoveRun, action: AutoremoveAction)
    requires
        run.wf(),
        is_autoremove_action(run, action),
    ensures
        action matches AutoremoveAction::Delete { hashes, .. } ==> texts(hashes@).no_duplicates(),
{
    if let AutoremoveAction::Delete { hashes, .. } = action {
        let candidates = candidate_views(run.plan->0.candidates@);
        let count = run.strategies().len();
        crate::task::law_torrents_are_deleted_once(
            run.strategies(),
            run.client_status,
            run.available@,
            &run.torrents,
            run.now,
            count,
            count,
        );
        assert forall|i: int, j: int|
            0 <= i < texts(hashes@).len() && 0 <= j < texts(hashes@).len() && i != j implies texts(
            hashes@,
        )[i] != texts(hashes@)[j] by {
            assert(texts(hashes@)[i] == candidates[i].hash);
            assert(texts(hashes@)[j] == candidates[j].hash);
            if i < j {
                assert(candidates[i].hash != candidates[j].hash);
            } else {
                assert(candidates[j].hash != candidates[i].hash);
            }
        }
    }
}

/// A request to delete names every torrent that a strategy of the task selects, and all others that
/// share the content of one.
pub proof fn law_groups_are_deleted_whole(
    run: AutoremoveRun,
    action: AutoremoveAction,
    strategy: int,
    primary: int,
    other: int,
)
    requires
        run.wf(),
        is_autoremove_action(run, action),
        action is Delete,
        0 <= strategy < run.strategies().len(),
    ensures
        strategy_selects(
            run.strategies()[strategy],
            run.client_status,
            run.available@[strategy]@,
            &run.torrents,
            run.now,
        ) matches Ok(selected) && (0 <= primary < selected.len() ==> {
            &&& texts(action->hashes@).contains(selected[primary].hash@)
            &&& 0 <= other < run.torrents@.len() && is_cross_seed(
                *selected[primary],
                run.torrents@[other],
            ) ==> texts(action->hashes@).contains(run.torrents@[other].hash@)
        }),
{
    let candidates = candidate_views(run.plan->0.candidates@);
    crate::task::law_groups_are_deleted_whole(
        run.strategies(),
        run.client_status,
        run.available@,
        &run.torrents,
        run.now,
        strategy,
        run.strategies().len(),
    );
    assert forall|hash: Seq<char>| #[trigger] is_listed(candidates, hash) implies texts(
        action->hashes@,
    ).contains(hash) by {
        let i = choose|i: int| 0 <= i < candidates.len() && (#[trigger] candidates[i]).hash == hash;
        assert(texts(action->hashes@)[i] == candidates[i].hash);
    }
    let selected = strategy_selects(
        run.strategies()[strategy],
        run.client_status,
        run.available@[strategy]@,
        &run.torrents,
        run.now,
    )->Ok_0;
    if 0 <= primary < selected.len() {
        assert(is_listed(candidates, selected[primary].hash@));
        if 0 <= other < run.torrents@.len() && is_cross_seed(
            *selected[primary],
            run.torrents@[other],
        ) {
            assert(is_listed(candidates, run.torrents@[other].hash@));
        }
    }
}

/// A cycle runs all tasks from the first to the last, or, if one is asked for by its name, the first
/// task of that name; where there is none of that name the cycle ends.
pub proof fn law_which_tasks_are_run(run: AutoremoveRun, next: AutoremoveRun)
    requires
        run.wf(),
        run.phase == AutoremovePhase::LoggingIn,
        autoremove_next(run, AutoremoveEvent::Done, next),
    ensures
        next.failed_tasks == 0,
        run.selected_task is None && run.config.tasks@.len() > 0 ==> next.at == 0 && next.end
            == run.config.tasks@.len() && next.phase == AutoremovePhase::ReadingStatus,
        run.selected_task is None && run.config.tasks@.len() == 0 ==> next.phase
            == AutoremovePhase::Finished,
        run.selected_task matches Some(name) ==> {
            let named = exists|i: int|
                0 <= i < run.config.tasks@.len() && (#[trigger] run.config.tasks@[i]).name@
                    == name@;
            &&& named ==> {
                &&& next.phase == AutoremovePhase::ReadingStatus
                &&& next.at < run.config.tasks@.len()
                &&& next.end == next.at + 1
                &&& run.config.tasks@[next.at as int].name@ == name@
                &&& forall|i: int|
                    0 <= i < next.at ==> (#[trigger] run.config.tasks@[i]).name@ != name@
            }
            &&& !named ==> next.phase == AutoremovePhase::NoSuchTask
        },
{
    if let Some(name) = run.selected_task {
        lemma_task_place(run.config.tasks@, name@, 0);
    }
}

proof fn lemma_task_place(tasks: Seq<AutoremoveTask>, name: Seq<char>, from: nat)
    requires
        from <= tasks.len(),
    ensures
        match task_place(tasks, name, from) {
            Some(place) => from <= place < tasks.len() && tasks[place].name@ == name && forall|
                i: int,
            |
                from <= i < place ==> (#[trigger] tasks[i]).name@ != name,
            None => forall|i: int|
                from <= i < tasks.len() ==> (#[trigger] tasks[i]).name@ != name,
        },
    decreases tasks.len() - from,
{
    if from < tasks.len() && tasks[from as int].name@ != name {
        lemma_task_place(tasks, name, from + 1);
    }
}

/// A task that is asked for by its name is known if and only if one has that name; if none is asked
/// for there is nothing to know.
pub proof fn law_known_tasks_have_the_name(
    tasks: Seq<AutoremoveTask>,
    selected_task: Option<Seq<char>>,
)
    ensures
        is_task_known(tasks, selected_task) <==> (selected_task matches Some(name) ==> exists|
            i: int,
        |
            0 <= i < tasks.len() && (#[trigger] tasks[i]).name@ == name),
{
    if let Some(name) = selected_task {
        lemma_task_place(tasks, name, 0);
    }
}

/// Whether a run is done with the task at hand: the next task follows, or the cycle is finished behind
/// the last one, and a failure is counted. A failed task that was asked for by its name ends the cycle.
pub open spec fn is_done_with_task(run: AutoremoveRun, failed: bool, next: AutoremoveRun) -> bool {
    if failed && run.selected_task is Some {
        next.phase == AutoremovePhase::TaskFailed && next.at == run.at
    } else {
        &&& next.at == run.at + 1
        &&& next.phase == (if next.at < run.end {
            AutoremovePhase::ReadingStatus
        } else {
            AutoremovePhase::Finished
        })
        &&& next.failed_tasks == run.failed_tasks + if failed {
            1int
        } else {
            0
        }
    }
}

/// Tasks are run in turn: status, torrents and clock are asked for one after the other, a failure of
/// any of them, or of the deletion, fails the task, and a deletion completes it.
pub proof fn law_tasks_are_taken_in_turn(
    run: AutoremoveRun,
    event: AutoremoveEvent,
    next: AutoremoveRun,
)
    requires
        run.wf(),
        run.is_busy(),
        autoremove_next(run, event, next),
    ensures
        next.config == run.config,
        next.end == run.end,
        next.dry_run == run.dry_run,
        next.selected_task == run.selected_task,
        next.interval_secs == run.interval_secs,
        run.phase == AutoremovePhase::ReadingStatus && event is Status ==> next.phase
            == AutoremovePhase::Listing && next.at == run.at && next.client_status
            == event->Status_0 && next.failed_tasks == run.failed_tasks,
        run.phase == AutoremovePhase::Listing && event is Listed ==> next.phase
            == AutoremovePhase::ReadingClock && next.at == run.at && next.torrents@.len()
            == event->Listed_0@.len() && (forall|i: int|
            0 <= i < next.torrents@.len() ==> is_built(
                event->Listed_0@,
                event->Listed_1,
                i,
                #[trigger] next.torrents@[i],
            )) && next.client_status == run.client_status,
        run.phase == AutoremovePhase::ReadingClock && (event matches AutoremoveEvent::Clock(seconds)
            && seconds > i64::MAX) ==> is_done_with_task(run, true, next),
        run.phase == AutoremovePhase::ReadingClock && (event matches AutoremoveEvent::Clock(seconds)
            && seconds <= i64::MAX) ==> next.now == event->Clock_0,
        event is Failed && run.phase != AutoremovePhase::Measuring ==> is_done_with_task(
            run,
            true,
            next,
        ),
        run.phase == AutoremovePhase::Deleting && event is Done ==> is_done_with_task(
            run,
            false,
            next,
        ),
        next.at != run.at ==> next.at == run.at + 1,
{
    assert forall|start: AutoremoveRun| #[trigger]
        measures_on(start, next) && start.config == run.config && start.end == run.end
            && start.at == run.at && start.dry_run == run.dry_run && start.selected_task
            == run.selected_task && start.interval_secs == run.interval_secs implies next.config
        == run.config && next.end == run.end && next.dry_run == run.dry_run && next.selected_task
        == run.selected_task && next.interval_secs == run.interval_secs && (next.at == run.at
        || next.at == run.at + 1) && next.now == start.now by {}
}

/// Once all space is measured, the task at hand is planned with what was measured: a plan that cannot
/// be made fails the task; one with torrents to delete is carried out, unless the run is a dry one; and
/// else the task is done.
pub proof fn law_plans_are_carried_out(
    run: AutoremoveRun,
    event: AutoremoveEvent,
    next: AutoremoveRun,
)
    requires
        run.wf(),
        run.phase == AutoremovePhase::Measuring,
        event is Available || event is Failed,
        autoremove_next(run, event, next),
    ensures
        ({
            let bytes = match event {
                AutoremoveEvent::Available(bytes) => Some(bytes),
                _ => None,
            };
            let last = run.measured@.len() + 1 == run.paths@.len();
            let outcome = planned(
                run.strategies(),
                run.client_status,
                next.available@,
                &run.torrents,
                run.now,
                run.strategies().len(),
            );
            &&& next.measured@ == run.measured@.push(bytes)
            &&& next.torrents == run.torrents
            &&& next.client_status == run.client_status
            &&& next.now == run.now
            &&& !last ==> next.phase == AutoremovePhase::Measuring && next.at == run.at
                && next.paths == run.paths
            &&& last ==> is_spread(run.strategies(), next.measured@, next.available@)
            &&& last && outcome is Err ==> is_done_with_task(run, true, next)
            &&& last && outcome is Ok ==> next.plan is Some && candidate_views(
                next.plan->0.candidates@,
            ) == outcome->Ok_0
            &&& last && outcome is Ok && (run.dry_run || outcome->Ok_0.len() == 0)
                ==> is_done_with_task(run, false, next)
            &&& last && outcome is Ok && !run.dry_run && outcome->Ok_0.len() > 0 ==> next.phase
                == AutoremovePhase::Deleting && next.at == run.at && next.failed_tasks
                == run.failed_tasks
        }),
{
    let bytes = match event {
        AutoremoveEvent::Available(bytes) => Some(bytes),
        _ => None,
    };
    assert(takes_measure(run, bytes, next));
    let start = choose|start: AutoremoveRun|
        start.measured@ == run.measured@.push(bytes) && start == (AutoremoveRun {
            measured: start.measured,
            ..run
        }) && #[trigger] measures_on(start, next);
    assert(start.strategies() == run.strategies());
}

/// A task whose conditions ask for no space is planned as soon as the time is known.
pub proof fn law_plans_need_no_space(run: AutoremoveRun, seconds: u64, next: AutoremoveRun)
    requires
        run.wf(),
        run.phase == AutoremovePhase::ReadingClock,
        seconds <= i64::MAX,
        autoremove_next(run, AutoremoveEvent::Clock(seconds), next),
    ensures
        ({
            let outcome = planned(
                run.strategies(),
                run.client_status,
                next.available@,
                &run.torrents,
                seconds as i64,
                run.strategies().len(),
            );
            let asked = next.paths@.len() > 0;
            &&& texts(next.paths@) == strategy_paths(run.strategies(), run.strategies().len())
            &&& next.measured@.len() == 0
            &&& asked ==> next.phase == AutoremovePhase::Measuring && next.at == run.at
            &&& !asked && outcome is Err ==> is_done_with_task(run, true, next)
            &&& !asked && outcome is Ok ==> next.plan is Some && candidate_views(
                next.plan->0.candidates@,
            ) == outcome->Ok_0
            &&& !asked && outcome is Ok && (run.dry_run || outcome->Ok_0.len() == 0)
                ==> is_done_with_task(run, false, next)
            &&& !asked && outcome is Ok && !run.dry_run && outcome->Ok_0.len() > 0 ==> next.phase
                == AutoremovePhase::Deleting && next.at == run.at
        }),
{
    let start = choose|start: AutoremoveRun|
        start.measured@.len() == 0 && start == (AutoremoveRun {
            now: seconds as i64,
            paths: next.paths,
            measured: start.measured,
            ..run
        }) && #[trigger] measures_on(start, next);
    assert(start.strategies() == run.strategies());
}

/// Every condition on the free space of a filesystem is applied with what was measured for its own
/// path.
pub proof fn law_conditions_get_the_space_of_their_path(
    strategies: Seq<StrategyConfig>,
    paths: Seq<Seq<char>>,
    measured: Seq<Option<u64>>,
    available: Seq<Vec<Option<u64>>>,
    strategy: int,
    condition: int,
)
    requires
        is_spread(strategies, measured, available),
        paths == strategy_paths(strategies, strategies.len()),
        0 <= strategy < strategies.len(),
        0 <= condition < strategies[strategy].conditions@.len(),
    ensures
        available[strategy]@.len() == strategies[strategy].conditions@.len(),
        strategies[strategy].conditions@[condition] matches ConditionSpec::FreeSpace { path, .. }
            ==> exists|i: int|
            0 <= i < paths.len() && #[trigger] paths[i] == path@
                && available[strategy]@[condition] == measured[i],
{
    let conditions = strategies[strategy].conditions@;
    let from = strategy_paths(strategies, strategy as nat).len() as int;
    lemma_condition_space(conditions, measured, from, conditions.len());
    assert(available[strategy]@ == condition_space(conditions, measured, from, conditions.len()));
    if let ConditionSpec::FreeSpace { path, .. } = conditions[condition] {
        let offset = condition_paths(conditions, condition as nat).len() as int;
        lemma_condition_paths_at(conditions, condition, conditions.len());
        lemma_strategy_paths_at(strategies, strategy, offset, strategies.len());
        assert(paths[from + offset] == path@);
    }
}

proof fn lemma_condition_space(
    conditions: Seq<ConditionSpec>,
    measured: Seq<Option<u64>>,
    from: int,
    count: nat,
)
    requires
        count <= conditions.len(),
    ensures
        condition_space(conditions, measured, from, count).len() == count,
        forall|k: int|
            0 <= k < count && conditions[k] is FreeSpace ==> #[trigger] condition_space(
                conditions,
                measured,
                from,
                count,
            )[k] == measured[from + condition_paths(conditions, k as nat).len()],
    decreases count,
{
    if count > 0 {
        lemma_condition_space(conditions, measured, from, (count - 1) as nat);
        let before = condition_space(conditions, measured, from, (count - 1) as nat);
        let after = condition_space(conditions, measured, from, count);
        assert forall|k: int| 0 <= k < count && conditions[k] is FreeSpace implies #[trigger] after[k]
            == measured[from + condition_paths(conditions, k as nat).len()] by {
            if k < count - 1 {
                assert(after[k] == before[k]);
            }
        }
    }
}

proof fn lemma_condition_paths_at(conditions: Seq<ConditionSpec>, at: int, count: nat)
    requires
        0 <= at < count <= conditions.len(),
        conditions[at] is FreeSpace,
    ensures
        condition_paths(conditions, at as nat).len() < condition_paths(conditions, count).len(),
        condition_paths(conditions, count)[condition_paths(conditions, at as nat).len() as int]
            == conditions[at]->FreeSpace_path@,
    decreases count,
{
    if at < count - 1 {
        lemma_condition_paths_at(conditions, at, (count - 1) as nat);
    }
}

proof fn lemma_strategy_paths_at(
    strategies: Seq<StrategyConfig>,
    at: int,
    offset: int,
    count: nat,
)
    requires
        0 <= at < count <= strategies.len(),
        0 <= offset < condition_paths(
            strategies[at].conditions@,
            strategies[at].conditions@.len(),
        ).len(),
    ensures
        strategy_paths(strategies, at as nat).len() + offset < strategy_paths(
            strategies,
            count,
        ).len(),
        strategy_paths(strategies, count)[strategy_paths(strategies, at as nat).len() + offset]
            == condition_paths(
            strategies[at].conditions@,
            strategies[at].conditions@.len(),
        )[offset],
    decreases count,
{
    if at < count - 1 {
        lemma_strategy_paths_at(strategies, at, offset, (count - 1) as nat);
    }
}

/// What a run asks for in each phase: a deletion names the torrents of the plan, in its order, and
/// deletes their data if the task says so.
pub proof fn law_actions_follow_the_plan(run: AutoremoveRun, action: AutoremoveAction)
    requires
        run.wf(),
        is_autoremove_action(run, action),
    ensures
        action is Login <==> run.phase == AutoremovePhase::LoggingIn,
        action is ReadStatus <==> run.phase == AutoremovePhase::ReadingStatus,
        action is ListTorrents <==> run.phase == AutoremovePhase::Listing,
        action is ReadClock <==> run.phase == AutoremovePhase::ReadingClock,
        action is MeasureSpace <==> run.phase == AutoremovePhase::Measuring,
        action is Delete <==> run.phase == AutoremovePhase::Deleting,
        action matches AutoremoveAction::MeasureSpace { path } ==> path@
            == run.paths@[run.measured@.len() as int]@,
        action matches AutoremoveAction::Delete { hashes, delete_data } ==> delete_data
            == run.config.tasks@[run.at as int].delete_data && hashes@.len()
            == run.plan->0.candidates@.len() && forall|i: int|
            0 <= i < hashes@.len() ==> (#[trigger] hashes@[i])@ == run.plan->0.candidates@[i].hash@,
        !run.is_busy() && run.phase != AutoremovePhase::LoggingIn && run.interval_secs is Some
            ==> action == AutoremoveAction::Sleep(run.interval_secs->0),
        run.interval_secs is None && run.phase == AutoremovePhase::Finished ==> action
            == AutoremoveAction::Finish(AutoremoveEnding::Completed(run.failed_tasks)),
        run.interval_secs is None && run.phase == AutoremovePhase::LoginFailed ==> action
            == AutoremoveAction::Finish(AutoremoveEnding::LoginFailed),
        run.interval_secs is None && run.phase == AutoremovePhase::NoSuchTask ==> action
            == AutoremoveAction::Finish(AutoremoveEnding::NoSuchTask),
        run.interval_secs is None && run.phase == AutoremovePhase::TaskFailed ==> action
            == AutoremoveAction::Finish(AutoremoveEnding::TaskFailed),
{
    if let AutoremoveAction::Delete { hashes, .. } = action {
        assert(texts(hashes@).len() == candidate_hashes(run.plan->0.candidates@).len());
        assert forall|i: int| 0 <= i < hashes@.len() implies (#[trigger] hashes@[i])@
            == run.plan->0.candidates@[i].hash@ by {
            assert(texts(hashes@)[i] == candidate_hashes(run.plan->0.candidates@)[i]);
        }
    }
}

/// A failed login ends the cycle at once. After the pause the next cycle starts afresh.
pub proof fn law_new_cycle_starts_afresh(run: AutoremoveRun, failed: AutoremoveRun, next: AutoremoveRun)
    requires
        run.wf(),
        run.phase == AutoremovePhase::LoggingIn,
        autoremove_next(run, AutoremoveEvent::Failed, failed),
        autoremove_next(failed, AutoremoveEvent::Woken, next),
    ensures
        failed.phase == AutoremovePhase::LoginFailed,
        run.interval_secs is Some ==> next.phase == AutoremovePhase::LoggingIn && next.config
            == run.config && next.failed_tasks == 0 && next.dry_run == run.dry_run
            && next.selected_task == run.selected_task && (run.cycle < u64::MAX ==> next.cycle
            == run.cycle + 1),
        run.interval_secs is None ==> next == failed,
{
}

/// A run begins with a login, in its first cycle. It is a dry run, is about one task, and pauses between
/// cycles, only if it was told so.
pub proof fn law_runs_begin_with_a_login(
    run: AutoremoveRun,
    dry_run: bool,
    selected_task: Option<String>,
    interval_secs: Option<u64>,
)
    requires
        is_autoremove_start(run, dry_run, selected_task, interval_secs),
    ensures
        run.phase == AutoremovePhase::LoggingIn,
        run.cycle == 1,
        run.dry_run == dry_run,
        run.selected_task == selected_task,
        run.interval_secs == interval_secs,
{
}

/// A text states a configuration, or there is an error to tell, and not both. A text that is no
/// document is a syntax error.
pub proof fn law_texts_are_loaded_or_wrong(
    raw: Seq<char>,
    config: AutoremoveConfig,
    error: ConfigError,
)
    ensures
        is_loaded(raw, config) ==> !is_load_error(raw, error),
        is_loaded(raw, config) ==> toml_document(raw) is Ok && is_config(
            toml_document(raw)->Ok_0,
            config,
        ),
        is_load_error(raw, error) && toml_document(raw) is Ok ==> config_fault(
            toml_document(raw)->Ok_0,
        ) == Some(error@),
        is_load_error(raw, error) && toml_document(raw) is Err ==> error@ == FaultView::Syntax(
            toml_document(raw)->Err_0,
        ),
{
}

} // verus!
