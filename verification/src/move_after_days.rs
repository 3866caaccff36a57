//! The run that moves torrents which have been complete for long enough: what it asks for next, and
//! what becomes of the answer.

use crate::age::{is_age_step, plan_age_moves, AgeStep, TorrentInfo};
use crate::rules::{Rule, RuleConfig};
use crate::setup::{are_rules, check_rules, is_rule_error, Ending, SetupError};
use vstd::prelude::*;

verus! {

/// How many torrents a run has looked at, and what became of them.
#[derive(Clone, Copy, PartialEq, Eq, Structural, Debug)]
pub struct AgeSummary {
    pub checked: usize,
    pub eligible: usize,
    pub dry_run_matches: usize,
    pub moved: usize,
    pub skipped: usize,
    pub failed: usize,
}

/// What a run waits for.
#[derive(Clone, Copy, PartialEq, Eq, Structural, Debug)]
pub enum AgePhase {
    LoggingIn,
    ReadingClock,
    Listing,
    /// The torrent at hand is taken out of automatic management.
    Disabling,
    /// The torrent at hand is moved.
    Moving,
    Finished,
    Aborted,
}

/// An answer that a run gets.
pub enum AgeEvent {
    Done,
    Failed,
    /// The seconds since the beginning of 1970.
    Clock(u64),
    Torrents(Vec<TorrentInfo>),
    /// The pause is over.
    Woken,
}

/// What a run asks for.
pub enum AgeAction {
    Login,
    ReadClock,
    ListTorrents,
    DisableAutoManagement { hash: String },
    SetLocation { hash: String, location: String },
    /// A pause of so many seconds.
    Sleep(u64),
    Finish(Ending),
}

/// A run over all torrents, once or again and again.
pub struct AgeRun {
    pub rules: Vec<Rule>,
    pub dry_run: bool,
    /// The pause between two cycles; `None` if there is but one.
    pub interval_secs: Option<u64>,
    pub cycle: u64,
    pub phase: AgePhase,
    pub now: u64,
    pub torrents: Vec<TorrentInfo>,
    pub steps: Vec<AgeStep>,
    /// The place of the torrent at hand.
    pub at: usize,
    pub summary: AgeSummary,
}

/// The summary of a cycle that has not looked at any torrent.
pub open spec fn no_torrents() -> AgeSummary {
    AgeSummary { checked: 0, eligible: 0, dry_run_matches: 0, moved: 0, skipped: 0, failed: 0 }
}

fn empty_summary() -> (summary: AgeSummary)
    ensures
        summary == no_torrents(),
{
    AgeSummary { checked: 0, eligible: 0, dry_run_matches: 0, moved: 0, skipped: 0, failed: 0 }
}

/// Where a cycle stands.
pub struct AgePosition {
    pub at: int,
    pub phase: AgePhase,
    pub summary: AgeSummary,
}

/// Where a cycle stands that goes on at a place: torrents that stay, and in a dry run all, are only
/// counted; one that is to be moved is first taken out of automatic management.
pub open spec fn advanced(
    steps: Seq<AgeStep>,
    torrents: Seq<TorrentInfo>,
    dry_run: bool,
    at: int,
    summary: AgeSummary,
) -> AgePosition
    decreases steps.len() - at,
{
    if at >= steps.len() {
        AgePosition { at, phase: AgePhase::Finished, summary }
    } else {
        let checked = (summary.checked + 1) as usize;
        match steps[at] {
            AgeStep::Skip(_) => advanced(
                steps,
                torrents,
                dry_run,
                at + 1,
                AgeSummary { checked, skipped: (summary.skipped + 1) as usize, ..summary },
            ),
            AgeStep::Move { .. } => {
                let eligible = (summary.eligible + 1) as usize;
                if dry_run {
                    advanced(
                        steps,
                        torrents,
                        dry_run,
                        at + 1,
                        AgeSummary {
                            checked,
                            eligible,
                            dry_run_matches: (summary.dry_run_matches + 1) as usize,
                            ..summary
                        },
                    )
                } else {
                    AgePosition {
                        at,
                        phase: if torrents[at].auto_tmm {
                            AgePhase::Disabling
                        } else {
                            AgePhase::Moving
                        },
                        summary: AgeSummary { checked, eligible, ..summary },
                    }
                }
            },
        }
    }
}

impl AgeRun {
    /// Where the cycle stands.
    pub open spec fn position(self) -> AgePosition {
        AgePosition { at: self.at as int, phase: self.phase, summary: self.summary }
    }

    /// Whether a torrent is at hand.
    pub open spec fn is_busy(self) -> bool {
        self.phase == AgePhase::Disabling || self.phase == AgePhase::Moving
    }

    /// A torrent at hand is to be moved, and every torrent that was looked at is counted once: as
    /// skipped or as eligible, and an eligible one as matched in a dry run, moved, failed, or at hand.
    pub open spec fn is_placed(self) -> bool {
        &&& self.at <= self.steps@.len()
        &&& self.is_busy() ==> !self.dry_run && self.at < self.steps@.len()
            && self.steps@[self.at as int] is Move
        &&& self.phase == AgePhase::Disabling ==> self.torrents@[self.at as int].auto_tmm
        &&& self.phase == AgePhase::Finished ==> self.at == self.steps@.len()
        &&& is_tally(
            self.summary,
            self.at as int,
            if self.is_busy() {
                1
            } else {
                0
            },
        )
    }

    /// The steps are those that the rules give for the torrents, and a torrent at hand is one of
    /// them.
    pub open spec fn wf(self) -> bool {
        &&& self.steps@.len() == self.torrents@.len()
        &&& forall|i: int|
            0 <= i < self.steps@.len() ==> is_age_step(
                self.torrents@,
                self.rules@,
                self.now,
                i,
                #[trigger] self.steps@[i],
            )
        &&& self.is_placed()
        &&& (self.phase == AgePhase::LoggingIn || self.phase == AgePhase::ReadingClock || self.phase
            == AgePhase::Listing || self.phase == AgePhase::Aborted) ==> self.torrents@.len() == 0
        &&& self.interval_secs is Some ==> self.interval_secs->0 > 0
    }
}

/// Whether a summary counts so many torrents that are done with, and those at hand.
pub open spec fn is_tally(summary: AgeSummary, done: int, busy: int) -> bool {
    &&& summary.checked == done + busy
    &&& summary.checked == summary.skipped + summary.eligible
    &&& summary.eligible == summary.dry_run_matches + summary.moved + summary.failed + busy
}

/// Whether one state of a run follows another on an answer. An answer that the run does not wait for
/// changes nothing.
pub open spec fn age_next(run: AgeRun, event: AgeEvent, next: AgeRun) -> bool {
    match (run.phase, event) {
        (AgePhase::LoggingIn, AgeEvent::Done) => next == (AgeRun {
            phase: AgePhase::ReadingClock,
            ..run
        }),
        (AgePhase::ReadingClock, AgeEvent::Clock(now)) => next == (AgeRun {
            phase: AgePhase::Listing,
            now,
            ..run
        }),
        (AgePhase::Listing, AgeEvent::Torrents(torrents)) => {
            &&& next == (AgeRun {
                torrents,
                steps: next.steps,
                at: next.at,
                phase: next.phase,
                summary: next.summary,
                ..run
            })
            &&& next.steps@.len() == torrents@.len()
            &&& forall|i: int|
                0 <= i < torrents@.len() ==> is_age_step(
                    torrents@,
                    run.rules@,
                    run.now,
                    i,
                    #[trigger] next.steps@[i],
                )
            &&& next.position() == advanced(
                next.steps@,
                torrents@,
                run.dry_run,
                0,
                no_torrents(),
            )
        },
        (AgePhase::Disabling, AgeEvent::Done) => next == (AgeRun {
            phase: AgePhase::Moving,
            ..run
        }),
        (AgePhase::Moving, AgeEvent::Done) => age_goes_on(
            run,
            AgeSummary { moved: (run.summary.moved + 1) as usize, ..run.summary },
            next,
        ),
        (AgePhase::Disabling, AgeEvent::Failed) | (AgePhase::Moving, AgeEvent::Failed) => age_goes_on(
            run,
            AgeSummary { failed: (run.summary.failed + 1) as usize, ..run.summary },
            next,
        ),
        (AgePhase::LoggingIn, AgeEvent::Failed) | (
            AgePhase::ReadingClock,
            AgeEvent::Failed,
        ) | (AgePhase::Listing, AgeEvent::Failed) => next == (AgeRun {
            phase: AgePhase::Aborted,
            ..run
        }),
        (AgePhase::Finished, AgeEvent::Woken) | (AgePhase::Aborted, AgeEvent::Woken) => if run.interval_secs is Some {
            &&& next == (AgeRun {
                cycle: next.cycle,
                phase: AgePhase::LoggingIn,
                torrents: next.torrents,
                steps: next.steps,
                at: 0,
                summary: no_torrents(),
                ..run
            })
            &&& next.cycle == (if run.cycle < u64::MAX {
                run.cycle + 1
            } else {
                run.cycle as int
            })
            &&& next.torrents@.len() == 0
            &&& next.steps@.len() == 0
        } else {
            next == run
        },
        _ => next == run,
    }
}

/// Whether a run goes on behind the torrent at hand, with a new summary.
pub open spec fn age_goes_on(run: AgeRun, summary: AgeSummary, next: AgeRun) -> bool {
    &&& next == (AgeRun { at: next.at, phase: next.phase, summary: next.summary, ..run })
    &&& next.position() == advanced(
        run.steps@,
        run.torrents@,
        run.dry_run,
        run.at + 1,
        summary,
    )
}

/// Whether an action is what a run asks for.
pub open spec fn is_age_action(run: AgeRun, action: AgeAction) -> bool {
    match run.phase {
        AgePhase::LoggingIn => action is Login,
        AgePhase::ReadingClock => action is ReadClock,
        AgePhase::Listing => action is ListTorrents,
        AgePhase::Disabling => action matches AgeAction::DisableAutoManagement { hash } && hash@
            == run.torrents@[run.at as int].hash@,
        AgePhase::Moving => action matches AgeAction::SetLocation { hash, location } && hash@
            == run.torrents@[run.at as int].hash@ && location@
            == run.steps@[run.at as int]->destination@,
        AgePhase::Finished => match run.interval_secs {
            Some(seconds) => action == AgeAction::Sleep(seconds),
            None => action == AgeAction::Finish(
                if run.summary.failed > 0 {
                    Ending::Failures(run.summary.failed)
                } else {
                    Ending::Success
                },
            ),
        },
        AgePhase::Aborted => match run.interval_secs {
            Some(seconds) => action == AgeAction::Sleep(seconds),
            None => action == AgeAction::Finish(Ending::Aborted),
        },
    }
}

impl AgeRun {
    /// What the run asks for.
    pub fn action(&self) -> (action: AgeAction)
        requires
            self.wf(),
        ensures
            is_age_action(*self, action),
    {
        match self.phase {
            AgePhase::LoggingIn => AgeAction::Login,
            AgePhase::ReadingClock => AgeAction::ReadClock,
            AgePhase::Listing => AgeAction::ListTorrents,
            AgePhase::Disabling => AgeAction::DisableAutoManagement {
                hash: self.torrents[self.at].hash.clone(),
            },
            AgePhase::Moving => {
                let location = match &self.steps[self.at] {
                    AgeStep::Move { destination, .. } => destination.clone(),
                    AgeStep::Skip(_) => String::new(),
                };
                AgeAction::SetLocation { hash: self.torrents[self.at].hash.clone(), location }
            },
            AgePhase::Finished => match self.interval_secs {
                Some(seconds) => AgeAction::Sleep(seconds),
                None => AgeAction::Finish(
                    if self.summary.failed > 0 {
                        Ending::Failures(self.summary.failed)
                    } else {
                        Ending::Success
                    },
                ),
            },
            AgePhase::Aborted => match self.interval_secs {
                Some(seconds) => AgeAction::Sleep(seconds),
                None => AgeAction::Finish(Ending::Aborted),
            },
        }
    }

    /// Goes on at a place, until a torrent is to be moved or there is none left.
    fn advance(&mut self, from: usize, counted: AgeSummary)
        requires
            from <= old(self).steps@.len(),
            old(self).steps@.len() == old(self).torrents@.len(),
            is_tally(counted, from as int, 0),
        ensures
            *final(self) == (AgeRun {
                at: final(self).at,
                phase: final(self).phase,
                summary: final(self).summary,
                ..*old(self)
            }),
            final(self).position() == advanced(
                old(self).steps@,
                old(self).torrents@,
                old(self).dry_run,
                from as int,
                counted,
            ),
            final(self).is_placed(),
            final(self).is_busy() || final(self).phase == AgePhase::Finished,
    {
        let mut at: usize = from;
        let mut summary: AgeSummary = counted;
        while at < self.steps.len()
            invariant
                at <= self.steps@.len(),
                *self == *old(self),
                self.steps@.len() == self.torrents@.len(),
                is_tally(summary, at as int, 0),
                advanced(self.steps@, self.torrents@, self.dry_run, at as int, summary)
                    == advanced(self.steps@, self.torrents@, self.dry_run, from as int, counted),
            decreases self.steps.len() - at,
        {
            summary.checked = summary.checked + 1;
            match &self.steps[at] {
                AgeStep::Skip(_) => {
                    summary.skipped = summary.skipped + 1;
                },
                AgeStep::Move { .. } => {
                    summary.eligible = summary.eligible + 1;
                    if !self.dry_run {
                        let phase = if self.torrents[at].auto_tmm {
                            AgePhase::Disabling
                        } else {
                            AgePhase::Moving
                        };
                        self.at = at;
                        self.summary = summary;
                        self.phase = phase;
                        return;
                    }
                    summary.dry_run_matches = summary.dry_run_matches + 1;
                },
            }
            at = at + 1;
        }
        self.at = at;
        self.summary = summary;
        self.phase = AgePhase::Finished;
    }

    /// Takes an answer.
    pub fn handle(&mut self, event: AgeEvent)
        requires
            old(self).wf(),
        ensures
            final(self).wf(),
            age_next(*old(self), event, *final(self)),
    {
        match (self.phase, event) {
            (AgePhase::LoggingIn, AgeEvent::Done) => {
                self.phase = AgePhase::ReadingClock;
            },
            (AgePhase::ReadingClock, AgeEvent::Clock(now)) => {
                self.phase = AgePhase::Listing;
                self.now = now;
            },
            (AgePhase::Listing, AgeEvent::Torrents(torrents)) => {
                let steps = plan_age_moves(&torrents, &self.rules, self.now);
                self.torrents = torrents;
                self.steps = steps;
                self.advance(0, empty_summary());
            },
            (AgePhase::Disabling, AgeEvent::Done) => {
                self.phase = AgePhase::Moving;
            },
            (AgePhase::Moving, AgeEvent::Done) => {
                let mut summary: AgeSummary = self.summary;
                summary.moved = summary.moved + 1;
                self.advance(self.at + 1, summary);
            },
            (AgePhase::Disabling, AgeEvent::Failed) | (AgePhase::Moving, AgeEvent::Failed) => {
                let mut summary: AgeSummary = self.summary;
                summary.failed = summary.failed + 1;
                self.advance(self.at + 1, summary);
            },
            (AgePhase::LoggingIn, AgeEvent::Failed) | (
                AgePhase::ReadingClock,
                AgeEvent::Failed,
            ) | (AgePhase::Listing, AgeEvent::Failed) => {
                self.phase = AgePhase::Aborted;
            },
            (AgePhase::Finished, AgeEvent::Woken) | (AgePhase::Aborted, AgeEvent::Woken) => {
                if self.interval_secs.is_some() {
                    if self.cycle < u64::MAX {
                        self.cycle = self.cycle + 1;
                    }
                    self.torrents = Vec::new();
                    self.steps = Vec::new();
                    self.at = 0;
                    self.summary = empty_summary();
                    self.phase = AgePhase::LoggingIn;
                }
            },
            _ => {},
        }
    }
}

/// Whether a run is at the beginning of its first cycle.
pub open spec fn is_age_start(run: AgeRun, dry_run: bool, interval_secs: Option<u64>) -> bool {
    &&& run.wf()
    &&& run.dry_run == dry_run
    &&& run.interval_secs == interval_secs
    &&& run.cycle == 1
    &&& run.phase == AgePhase::LoggingIn
    &&& run.summary == no_torrents()
}

fn start_age_run(rules: Vec<Rule>, dry_run: bool, interval_secs: Option<u64>) -> (run: AgeRun)
    requires
        interval_secs is Some ==> interval_secs->0 > 0,
    ensures
        run.rules == rules,
        is_age_start(run, dry_run, interval_secs),
{
    let torrents: Vec<TorrentInfo> = Vec::new();
    let steps: Vec<AgeStep> = Vec::new();
    AgeRun {
        rules,
        dry_run,
        interval_secs,
        cycle: 1,
        phase: AgePhase::LoggingIn,
        now: 0,
        torrents,
        steps,
        at: 0,
        summary: empty_summary(),
    }
}

/// Begins a run over all torrents.
pub fn run_move_after_days(raw_rules: Vec<RuleConfig>, dry_run: bool) -> (outcome: Result<
    AgeRun,
    SetupError,
>)
    ensures
        match outcome {
            Ok(run) => raw_rules@.len() > 0 && are_rules(raw_rules@, run.rules@) && is_age_start(
                run,
                dry_run,
                None,
            ),
            Err(error) => if raw_rules@.len() == 0 {
                error is NoRules
            } else {
                error matches SetupError::Rule(error) && is_rule_error(raw_rules@, error)
            },
        },
{
    match check_rules(raw_rules) {
        Ok(rules) => Ok(start_age_run(rules, dry_run, None)),
        Err(error) => Err(error),
    }
}

/// Begins a run that goes over all torrents again and again, with a pause in between.
pub fn run_move_after_days_daemon(
    raw_rules: Vec<RuleConfig>,
    dry_run: bool,
    interval_secs: u64,
) -> (outcome: Result<AgeRun, SetupError>)
    ensures
        match outcome {
            Ok(run) => interval_secs > 0 && raw_rules@.len() > 0 && are_rules(
                raw_rules@,
                run.rules@,
            ) && is_age_start(run, dry_run, Some(interval_secs)),
            Err(error) => if interval_secs == 0 {
                error is ZeroInterval
            } else if raw_rules@.len() == 0 {
                error is NoRules
            } else {
                error matches SetupError::Rule(error) && is_rule_error(raw_rules@, error)
            },
        },
{
    if interval_secs == 0 {
        return Err(SetupError::ZeroInterval);
    }
    match check_rules(raw_rules) {
        Ok(rules) => Ok(start_age_run(rules, dry_run, Some(interval_secs))),
        Err(error) => Err(error),
    }
}

/// A dry run asks for no change.
pub proof fn law_dry_run_changes_nothing(run: AgeRun, action: AgeAction)
    requires
        run.wf(),
        run.dry_run,
        is_age_action(run, action),
    ensures
        !(action is DisableAutoManagement),
        !(action is SetLocation),
{
}

proof fn lemma_advanced_phase(
    steps: Seq<AgeStep>,
    torrents: Seq<TorrentInfo>,
    dry_run: bool,
    at: int,
    summary: AgeSummary,
)
    ensures
        ({
            let position = advanced(steps, torrents, dry_run, at, summary);
            position.phase == AgePhase::Moving ==> !torrents[position.at].auto_tmm
        }),
    decreases steps.len() - at,
{
    if at < steps.len() {
        let checked = (summary.checked + 1) as usize;
        match steps[at] {
            AgeStep::Skip(_) => {
                lemma_advanced_phase(
                    steps,
                    torrents,
                    dry_run,
                    at + 1,
                    AgeSummary { checked, skipped: (summary.skipped + 1) as usize, ..summary },
                );
            },
            AgeStep::Move { .. } => {
                if dry_run {
                    lemma_advanced_phase(
                        steps,
                        torrents,
                        dry_run,
                        at + 1,
                        AgeSummary {
                            checked,
                            eligible: (summary.eligible + 1) as usize,
                            dry_run_matches: (summary.dry_run_matches + 1) as usize,
                            ..summary
                        },
                    );
                }
            },
        }
    }
}

/// A torrent under automatic management is moved only once it has been taken out of it.
pub proof fn law_auto_management_ends_before_move(run: AgeRun, event: AgeEvent, next: AgeRun)
    requires
        run.wf(),
        age_next(run, event, next),
        next.phase == AgePhase::Moving,
        next.torrents@[next.at as int].auto_tmm,
        next != run,
    ensures
        run.phase == AgePhase::Disabling,
        event is Done,
        run.at == next.at,
        run.torrents == next.torrents,
{
    match (run.phase, event) {
        (AgePhase::Listing, AgeEvent::Torrents(torrents)) => {
            lemma_advanced_phase(next.steps@, torrents@, run.dry_run, 0, no_torrents());
        },
        (AgePhase::Moving, AgeEvent::Done) => {
            lemma_advanced_phase(
                run.steps@,
                run.torrents@,
                run.dry_run,
                run.at + 1,
                AgeSummary { moved: (run.summary.moved + 1) as usize, ..run.summary },
            );
        },
        (AgePhase::Moving, AgeEvent::Failed) | (AgePhase::Disabling, AgeEvent::Failed) => {
            lemma_advanced_phase(
                run.steps@,
                run.torrents@,
                run.dry_run,
                run.at + 1,
                AgeSummary { failed: (run.summary.failed + 1) as usize, ..run.summary },
            );
        },
        _ => {},
    }
}

/// A finished cycle has looked at every torrent, and has skipped, matched, moved or failed to move
/// each of them once.
pub proof fn law_finished_cycle_counts_every_torrent(run: AgeRun)
    requires
        run.wf(),
        run.phase == AgePhase::Finished,
    ensures
        run.summary.checked == run.torrents@.len(),
        run.torrents@.len() == run.summary.skipped + run.summary.dry_run_matches
            + run.summary.moved + run.summary.failed,
{
}

/// A run in cycles never ends: whatever became of a cycle, the next one follows after the pause.
pub proof fn law_daemon_goes_on(run: AgeRun, action: AgeAction, next: AgeRun)
    requires
        run.wf(),
        run.interval_secs is Some,
        is_age_action(run, action),
    ensures
        !(action is Finish),
        action is Sleep && age_next(run, AgeEvent::Woken, next) ==> next.phase
            == AgePhase::LoggingIn && next.rules == run.rules,
{
}

/// Whether a run goes on, behind a place in the list, at the next torrent that is to be moved, and is
/// finished only if there is none. One under automatic management is first taken out of it. A dry run
/// is finished at once.
pub open spec fn goes_to_next_torrent(run: AgeRun, behind: int) -> bool {
    ||| {
        &&& !run.dry_run
        &&& behind < run.at < run.steps@.len()
        &&& run.steps@[run.at as int] is Move
        &&& run.phase == (if run.torrents@[run.at as int].auto_tmm {
            AgePhase::Disabling
        } else {
            AgePhase::Moving
        })
        &&& forall|k: int| behind < k < run.at ==> (#[trigger] run.steps@[k]) is Skip
    }
    ||| {
        &&& run.phase == AgePhase::Finished
        &&& run.at == run.steps@.len()
        &&& !run.dry_run ==> forall|k: int|
            behind < k < run.steps@.len() ==> (#[trigger] run.steps@[k]) is Skip
    }
}

proof fn lemma_advanced_is_next(
    steps: Seq<AgeStep>,
    torrents: Seq<TorrentInfo>,
    dry_run: bool,
    at: int,
    summary: AgeSummary,
)
    requires
        0 <= at <= steps.len() <= usize::MAX,
        summary.checked == at,
        summary.skipped <= summary.checked,
        summary.eligible <= summary.checked,
        summary.dry_run_matches <= summary.checked,
    ensures
        ({
            let position = advanced(steps, torrents, dry_run, at, summary);
            let busy = position.phase != AgePhase::Finished;
            &&& at <= position.at <= steps.len()
            &&& position.phase == AgePhase::Finished ==> position.at == steps.len()
            &&& busy ==> !dry_run && position.at < steps.len() && steps[position.at] is Move
                && position.phase == (if torrents[position.at].auto_tmm {
                AgePhase::Disabling
            } else {
                AgePhase::Moving
            })
            &&& !dry_run ==> forall|k: int|
                at <= k < position.at ==> (#[trigger] steps[k]) is Skip
            &&& position.summary.moved == summary.moved
            &&& position.summary.failed == summary.failed
            &&& position.summary.checked == position.at + if busy {
                1int
            } else {
                0
            }
            &&& !dry_run ==> position.summary.skipped == summary.skipped + position.at - at
            &&& !dry_run ==> position.summary.dry_run_matches == summary.dry_run_matches
            &&& !dry_run ==> position.summary.eligible == summary.eligible + if busy {
                1int
            } else {
                0
            }
            &&& dry_run ==> position.summary.skipped == summary.skipped + count_skips(
                steps,
                at,
            )
            &&& dry_run ==> position.summary.dry_run_matches == summary.dry_run_matches + (
            steps.len() - at) - count_skips(steps, at)
            &&& dry_run ==> position.summary.eligible == summary.eligible + (steps.len() - at)
                - count_skips(steps, at)
        }),
    decreases steps.len() - at,
{
    if at < steps.len() {
        let checked = (summary.checked + 1) as usize;
        match steps[at] {
            AgeStep::Skip(_) => {
                lemma_advanced_is_next(
                    steps,
                    torrents,
                    dry_run,
                    at + 1,
                    AgeSummary { checked, skipped: (summary.skipped + 1) as usize, ..summary },
                );
            },
            AgeStep::Move { .. } => {
                if dry_run {
                    lemma_advanced_is_next(
                        steps,
                        torrents,
                        dry_run,
                        at + 1,
                        AgeSummary {
                            checked,
                            eligible: (summary.eligible + 1) as usize,
                            dry_run_matches: (summary.dry_run_matches + 1) as usize,
                            ..summary
                        },
                    );
                }
            },
        }
    }
}

/// How many torrents stay, from a place on.
pub open spec fn count_skips(steps: Seq<AgeStep>, from: int) -> int
    decreases steps.len() - from,
{
    if from >= steps.len() {
        0
    } else {
        count_skips(steps, from + 1) + if steps[from] is Skip {
            1int
        } else {
            0
        }
    }
}

/// Torrents are taken in turn: once they are listed, and whenever one is done with, the run goes on at
/// the next torrent that is to be moved. One that could not be taken out of automatic management is
/// not moved. Each answer is counted once.
pub proof fn law_torrents_are_taken_in_turn(run: AgeRun, event: AgeEvent, next: AgeRun)
    requires
        run.wf(),
        age_next(run, event, next),
        next.steps@.len() <= usize::MAX,
    ensures
        run.phase == AgePhase::Listing && event is Torrents ==> goes_to_next_torrent(next, -1)
            && next.torrents@ == event->Torrents_0@ && next.steps@.len() == next.torrents@.len()
            && forall|i: int|
            0 <= i < next.steps@.len() ==> is_age_step(
                next.torrents@,
                run.rules@,
                run.now,
                i,
                #[trigger] next.steps@[i],
            ),
        run.phase == AgePhase::Listing && event is Torrents && !run.dry_run ==> next.summary
            == (AgeSummary {
            checked: next.summary.checked,
            eligible: next.summary.eligible,
            skipped: next.at,
            dry_run_matches: 0,
            moved: 0,
            failed: 0,
        }),
        run.phase == AgePhase::Listing && event is Torrents && run.dry_run ==> {
            &&& next.summary.skipped == count_skips(next.steps@, 0)
            &&& next.summary.dry_run_matches == next.steps@.len() - count_skips(next.steps@, 0)
            &&& next.summary.eligible == next.summary.dry_run_matches
            &&& next.summary.moved == 0
            &&& next.summary.failed == 0
        },
        run.phase == AgePhase::Disabling && event is Done ==> next.phase == AgePhase::Moving
            && next.at == run.at && next.summary == run.summary,
        run.phase == AgePhase::Moving && event is Done ==> goes_to_next_torrent(
            next,
            run.at as int,
        ) && next.summary.moved == run.summary.moved + 1 && next.summary.failed
            == run.summary.failed && next.summary.skipped == run.summary.skipped + next.at - run.at
            - 1,
        run.is_busy() && event is Failed ==> goes_to_next_torrent(next, run.at as int)
            && next.summary.failed == run.summary.failed + 1 && next.summary.moved
            == run.summary.moved && next.summary.skipped == run.summary.skipped + next.at - run.at
            - 1,
        run.is_busy() ==> next.steps == run.steps && next.torrents == run.torrents,
        next.rules == run.rules,
        next.dry_run == run.dry_run,
        next.interval_secs == run.interval_secs,
        run.phase == AgePhase::ReadingClock && event is Clock ==> next.now == event->Clock_0
            && next.phase == AgePhase::Listing,
        run.phase != AgePhase::ReadingClock ==> next.now == run.now,
        run.phase == AgePhase::LoggingIn && event is Done ==> next.phase == AgePhase::ReadingClock,
{
    match (run.phase, event) {
        (AgePhase::Listing, AgeEvent::Torrents(torrents)) => {
            lemma_advanced_is_next(next.steps@, torrents@, run.dry_run, 0, no_torrents());
        },
        (AgePhase::Moving, AgeEvent::Done) => {
            lemma_advanced_is_next(
                run.steps@,
                run.torrents@,
                run.dry_run,
                run.at + 1,
                AgeSummary { moved: (run.summary.moved + 1) as usize, ..run.summary },
            );
        },
        (AgePhase::Moving, AgeEvent::Failed) | (AgePhase::Disabling, AgeEvent::Failed) => {
            lemma_advanced_is_next(
                run.steps@,
                run.torrents@,
                run.dry_run,
                run.at + 1,
                AgeSummary { failed: (run.summary.failed + 1) as usize, ..run.summary },
            );
        },
        _ => {},
    }
}

/// Whether states follow each other, from the listing of the torrents on, on the given answers, within
/// one cycle.
pub open spec fn is_cycle(states: Seq<AgeRun>, events: Seq<AgeEvent>) -> bool {
    &&& states.len() == events.len() + 1
    &&& states.len() > 1
    &&& states[0].phase == AgePhase::Listing
    &&& events[0] is Torrents
    &&& forall|i: int|
        0 <= i < states.len() ==> (#[trigger] states[i]).wf() && states[i].steps@.len()
            <= usize::MAX
    &&& forall|i: int|
        0 <= i < events.len() ==> age_next(states[i], #[trigger] events[i], states[i + 1])
            && states[i].phase != AgePhase::Finished
}

/// A torrent was at hand in one of the first `count` states.
pub open spec fn was_at_hand(states: Seq<AgeRun>, count: int, place: int) -> bool {
    exists|k: int| 0 <= k < count && (#[trigger] states[k]).is_busy() && states[k].at == place
}

/// In a finished cycle that is no dry run every torrent that is to be moved has had its turn.
pub proof fn law_every_due_torrent_has_its_turn(
    states: Seq<AgeRun>,
    events: Seq<AgeEvent>,
    place: int,
)
    requires
        is_cycle(states, events),
        !states[0].dry_run,
        states.last().phase == AgePhase::Finished,
        0 <= place < states.last().steps@.len(),
        states.last().steps@[place] is Move,
    ensures
        was_at_hand(states, states.len() as int, place),
{
    lemma_at_hand_so_far(states, events, place, states.len() - 1);
}

proof fn lemma_at_hand_so_far(
    states: Seq<AgeRun>,
    events: Seq<AgeEvent>,
    place: int,
    at: int,
)
    requires
        is_cycle(states, events),
        !states[0].dry_run,
        1 <= at < states.len(),
        0 <= place < states[at].steps@.len(),
        states[at].steps@[place] is Move,
    ensures
        !states[at].dry_run,
        states[at].is_busy() || states[at].phase == AgePhase::Finished,
        states[at].phase == AgePhase::Finished ==> was_at_hand(states, at + 1, place),
        states[at].is_busy() && place <= states[at].at ==> was_at_hand(states, at + 1, place),
    decreases at,
{
    let run = states[at - 1];
    let next = states[at];
    assert(age_next(run, events[at - 1], states[at - 1 + 1]));
    assert(run.wf());
    law_torrents_are_taken_in_turn(run, events[at - 1], next);
    if at > 1 {
        if states[at - 1].phase == AgePhase::Finished {
            assert(age_next(states[at - 1], events[at - 1], states[at]));
        }
        lemma_busy_or_done(states, events, at - 1);
        assert(next.steps == run.steps);
        lemma_at_hand_so_far(states, events, place, at - 1);
        if was_at_hand(states, at, place) {
            let k = choose|k: int|
                0 <= k < at && (#[trigger] states[k]).is_busy() && states[k].at == place;
            assert(was_at_hand(states, at + 1, place));
        }
    }
    if next.is_busy() && next.at == place {
        assert(was_at_hand(states, at + 1, place));
    }
}

proof fn lemma_busy_or_done(states: Seq<AgeRun>, events: Seq<AgeEvent>, at: int)
    requires
        is_cycle(states, events),
        1 <= at < states.len(),
    ensures
        states[at].is_busy() || states[at].phase == AgePhase::Finished,
    decreases at,
{
    let run = states[at - 1];
    assert(age_next(run, events[at - 1], states[at - 1 + 1]));
    assert(run.wf());
    law_torrents_are_taken_in_turn(run, events[at - 1], states[at]);
    if at > 1 {
        lemma_busy_or_done(states, events, at - 1);
    }
}

/// What a run asks for in each phase: the torrent at hand is named by its hash, and goes to where its
/// step leads.
pub proof fn law_actions_name_the_torrent_at_hand(run: AgeRun, action: AgeAction)
    requires
        run.wf(),
        is_age_action(run, action),
    ensures
        action is Login <==> run.phase == AgePhase::LoggingIn,
        action is ReadClock <==> run.phase == AgePhase::ReadingClock,
        action is ListTorrents <==> run.phase == AgePhase::Listing,
        action is DisableAutoManagement <==> run.phase == AgePhase::Disabling,
        action is SetLocation <==> run.phase == AgePhase::Moving,
        action matches AgeAction::DisableAutoManagement { hash } ==> hash@
            == run.torrents@[run.at as int].hash@,
        action matches AgeAction::SetLocation { hash, location } ==> hash@
            == run.torrents@[run.at as int].hash@ && (run.steps@[run.at as int]
            matches AgeStep::Move { destination, .. } && location@ == destination@),
        (run.phase == AgePhase::Finished || run.phase == AgePhase::Aborted)
            && run.interval_secs is Some ==> action == AgeAction::Sleep(run.interval_secs->0),
        run.phase == AgePhase::Aborted && run.interval_secs is None ==> action
            == AgeAction::Finish(Ending::Aborted),
        run.phase == AgePhase::Finished && run.interval_secs is None ==> action
            == AgeAction::Finish(
            if run.summary.failed == 0 {
                Ending::Success
            } else {
                Ending::Failures(run.summary.failed)
            },
        ),
{
}

/// A failed login, clock or listing ends the cycle at once. After the pause the next cycle starts
/// afresh, with nothing counted.
pub proof fn law_trouble_ends_the_cycle(run: AgeRun, failed: AgeRun, next: AgeRun)
    requires
        run.wf(),
        age_next(run, AgeEvent::Failed, failed),
        age_next(failed, AgeEvent::Woken, next),
        run.phase == AgePhase::LoggingIn || run.phase == AgePhase::ReadingClock || run.phase
            == AgePhase::Listing,
    ensures
        failed.phase == AgePhase::Aborted,
        run.interval_secs is Some ==> next.phase == AgePhase::LoggingIn && next.rules == run.rules
            && next.dry_run == run.dry_run && next.summary.checked == 0 && next.summary.eligible
            == 0 && next.summary.dry_run_matches == 0 && next.summary.moved == 0
            && next.summary.skipped == 0 && next.summary.failed == 0 && next.at == 0
            && next.torrents@.len() == 0 && (run.cycle < u64::MAX ==> next.cycle == run.cycle + 1),
        run.interval_secs is None ==> next == failed,
{
}

/// A run begins with a login, in its first cycle, with nothing counted. It is a dry run, and it pauses
/// between cycles, only if it was told so.
pub proof fn law_runs_begin_with_a_login(run: AgeRun, dry_run: bool, interval_secs: Option<u64>)
    requires
        is_age_start(run, dry_run, interval_secs),
    ensures
        run.phase == AgePhase::LoggingIn,
        run.cycle == 1,
        run.dry_run == dry_run,
        run.interval_secs == interval_secs,
        run.summary.checked == 0,
        run.summary.eligible == 0,
        run.summary.dry_run_matches == 0,
        run.summary.moved == 0,
        run.summary.skipped == 0,
        run.summary.failed == 0,
{
}

} // verus!
