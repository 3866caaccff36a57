//! The run that moves torrents off filesystems which run out of free space: what it asks for next,
//! and what becomes of the answer.

use crate::age::TorrentInfo;
use crate::low_space::{
    count_pending_moves, ensure_low_space_rules, enough_free_space, free_space_deficit_bytes,
    has_free_space, is_pending, is_stray, law_wait_ends_when_all_moves_are_done, low_space_moves,
    missing_bytes, move_views, pending_count, plan_low_space_moves, FilesystemUsage, PlannedMove,
    QueuedMove,
};
use crate::number::of_integer;
use crate::path::normal_path;
use crate::rules::{
    is_compiled, law_most_specific_rule_wins, matching_rule, rule_fault, Rule, RuleConfig,
};
use crate::setup::{are_rules, check_rules, is_rule_error, Ending, SetupError};
use crate::text::texts;
use vstd::prelude::*;

verus! {

/// How many seconds pass between two looks at moves that are under way.
pub const MOVE_POLL_INTERVAL_SECS: u64 = 5;

/// What a cycle has come to.
#[derive(Clone, Copy, PartialEq, Eq, Structural, Debug)]
pub struct LowSpaceSummary {
    pub rules_checked: usize,
    pub rules_triggered: usize,
    pub batches_planned: usize,
    pub torrents_planned: usize,
    pub torrents_queued: usize,
    pub failed: usize,
}

/// What a run waits for.
#[derive(Clone, Copy, PartialEq, Eq, Structural, Debug)]
pub enum LowSpacePhase {
    LoggingIn,
    /// The free space for the rule at hand is measured.
    Measuring,
    Listing,
    /// The torrent at hand is taken out of automatic management.
    Disabling,
    /// The torrent at hand is moved.
    Moving,
    /// The moves under way are looked at.
    Polling,
    /// The moves under way are given time.
    Pausing,
    Finished,
    Aborted,
}

/// An answer that a run gets.
pub enum LowSpaceEvent {
    Done,
    Failed,
    Usage(FilesystemUsage),
    Torrents(Vec<TorrentInfo>),
    /// The pause is over.
    Woken,
}

/// What a run asks for.
pub enum LowSpaceAction {
    Login,
    /// The usage of the filesystem that holds a path.
    MeasureSpace { path: String },
    ListTorrents,
    /// The torrents with the given hashes.
    ListByHashes { hashes: Vec<String> },
    DisableAutoManagement { hash: String },
    SetLocation { hash: String, location: String },
    /// A pause of so many seconds.
    Sleep(u64),
    Finish(Ending),
}

/// A run over all rules that ask for free space, once or again and again.
pub struct LowSpaceRun {
    pub rules: Vec<Rule>,
    pub dry_run: bool,
    /// The pause between two cycles; `None` if there is but one.
    pub interval_secs: Option<u64>,
    pub cycle: u64,
    pub phase: LowSpacePhase,
    /// The place of the rule at hand.
    pub at: usize,
    /// Whether too little space was found free for the rule at hand.
    pub triggered: bool,
    /// How many bytes are missing.
    pub deficit_bytes: u64,
    /// The moves of the batch at hand.
    pub moves: Vec<PlannedMove>,
    /// The place of the move at hand.
    pub place: usize,
    /// The moves of the batch that qBittorrent has accepted.
    pub queued: Vec<QueuedMove>,
    pub summary: LowSpaceSummary,
}

/// The summary of a cycle that has not looked at any rule.
pub open spec fn no_rules() -> LowSpaceSummary {
    LowSpaceSummary {
        rules_checked: 0,
        rules_triggered: 0,
        batches_planned: 0,
        torrents_planned: 0,
        torrents_queued: 0,
        failed: 0,
    }
}

fn empty_summary() -> (summary: LowSpaceSummary)
    ensures
        summary == no_rules(),
{
    LowSpaceSummary {
        rules_checked: 0,
        rules_triggered: 0,
        batches_planned: 0,
        torrents_planned: 0,
        torrents_queued: 0,
        failed: 0,
    }
}

/// A count raised, as far as it goes.
pub open spec fn raised(count: usize, by: nat) -> usize {
    if count + by <= usize::MAX {
        (count + by) as usize
    } else {
        usize::MAX
    }
}

/// Where a cycle stands.
pub struct LowSpacePosition {
    pub at: int,
    pub phase: LowSpacePhase,
    pub triggered: bool,
    pub summary: LowSpaceSummary,
}

/// Where a cycle stands that goes on at a place: at the next rule that asks for free space.
pub open spec fn entered(rules: Seq<Rule>, at: int, summary: LowSpaceSummary) -> LowSpacePosition
    decreases rules.len() - at,
{
    if at >= rules.len() {
        LowSpacePosition { at, phase: LowSpacePhase::Finished, triggered: false, summary }
    } else if rules[at].min_free_space_percent is Some {
        LowSpacePosition {
            at,
            phase: LowSpacePhase::Measuring,
            triggered: false,
            summary: LowSpaceSummary {
                rules_checked: raised(summary.rules_checked, 1),
                ..summary
            },
        }
    } else {
        entered(rules, at + 1, summary)
    }
}

/// Where a cycle stands that is done with the rule at hand.
pub open spec fn rule_left(
    rules: Seq<Rule>,
    at: int,
    triggered: bool,
    summary: LowSpaceSummary,
) -> LowSpacePosition {
    entered(
        rules,
        at + 1,
        if triggered {
            LowSpaceSummary { rules_triggered: raised(summary.rules_triggered, 1), ..summary }
        } else {
            summary
        },
    )
}

/// What a run waits for that has a move at hand.
pub open spec fn move_phase(planned: PlannedMove) -> LowSpacePhase {
    if planned.auto_tmm {
        LowSpacePhase::Disabling
    } else {
        LowSpacePhase::Moving
    }
}

impl LowSpaceRun {
    /// Where the cycle stands.
    pub open spec fn position(self) -> LowSpacePosition {
        LowSpacePosition {
            at: self.at as int,
            phase: self.phase,
            triggered: self.triggered,
            summary: self.summary,
        }
    }

    /// Whether a move is at hand.
    pub open spec fn is_busy(self) -> bool {
        self.phase == LowSpacePhase::Disabling || self.phase == LowSpacePhase::Moving
    }

    /// Whether moves are under way.
    pub open spec fn is_waiting(self) -> bool {
        self.phase == LowSpacePhase::Polling || self.phase == LowSpacePhase::Pausing
    }

    /// The rule at hand asks for free space, the move at hand is one of the batch, and only what was
    /// accepted is waited for. A dry run moves nothing.
    pub open spec fn wf(self) -> bool {
        &&& (self.phase == LowSpacePhase::Measuring || self.phase == LowSpacePhase::Listing
            || self.is_busy() || self.is_waiting()) ==> self.at < self.rules@.len()
            && self.rules@[self.at as int].min_free_space_percent is Some
        &&& (self.phase == LowSpacePhase::Listing || self.is_busy() || self.is_waiting())
            ==> self.triggered
        &&& self.is_busy() ==> !self.dry_run && self.place < self.moves@.len()
        &&& self.phase == LowSpacePhase::Disabling ==> self.moves@[self.place as int].auto_tmm
        &&& self.is_waiting() ==> !self.dry_run && self.queued@.len() > 0
        &&& self.interval_secs is Some ==> self.interval_secs->0 > 0
    }
}

/// Whether a run leaves the rule at hand, with a new summary.
pub open spec fn leaves_rule(
    run: LowSpaceRun,
    triggered: bool,
    summary: LowSpaceSummary,
    next: LowSpaceRun,
) -> bool {
    &&& next == (LowSpaceRun {
        at: next.at,
        phase: next.phase,
        triggered: next.triggered,
        summary: next.summary,
        ..run
    })
    &&& next.position() == rule_left(run.rules@, run.at as int, triggered, summary)
}

/// Whether a run goes on behind the move at hand, with the moves accepted so far and a new summary:
/// at the next move, else by waiting for those accepted, else at the next rule.
pub open spec fn low_space_goes_on(
    run: LowSpaceRun,
    queued: Seq<QueuedMove>,
    summary: LowSpaceSummary,
    next: LowSpaceRun,
) -> bool {
    let place = run.place + 1;
    &&& next.queued@ == queued
    &&& next.place == place
    &&& if place < run.moves@.len() {
        next == (LowSpaceRun {
            phase: move_phase(run.moves@[place]),
            place: next.place,
            queued: next.queued,
            summary,
            ..run
        })
    } else if queued.len() > 0 {
        next == (LowSpaceRun {
            phase: LowSpacePhase::Polling,
            place: next.place,
            queued: next.queued,
            summary,
            ..run
        })
    } else {
        leaves_rule(
            (LowSpaceRun { place: next.place, queued: next.queued, ..run }),
            run.triggered,
            summary,
            next,
        )
    }
}

/// Whether a list of accepted moves has grown by one.
pub open spec fn is_queued(
    before: Seq<QueuedMove>,
    planned: PlannedMove,
    after: Seq<QueuedMove>,
) -> bool {
    &&& after.len() == before.len() + 1
    &&& after.drop_last() == before
    &&& after.last().hash@ == planned.hash@
    &&& after.last().name@ == planned.name@
    &&& after.last().destination@ == planned.destination@
}

/// Whether one state of a run follows another on an answer. An answer that the run does not wait for
/// changes nothing.
pub open spec fn low_space_next(run: LowSpaceRun, event: LowSpaceEvent, next: LowSpaceRun) -> bool {
    let rule = run.rules@[run.at as int];
    match (run.phase, event) {
        (LowSpacePhase::LoggingIn, LowSpaceEvent::Done) => {
            &&& next == (LowSpaceRun {
                at: next.at,
                phase: next.phase,
                triggered: next.triggered,
                summary: next.summary,
                ..run
            })
            &&& next.position() == entered(run.rules@, 0, run.summary)
        },
        (LowSpacePhase::Measuring, LowSpaceEvent::Usage(usage)) => {
            let least = rule.min_free_space_percent->0;
            if has_free_space(usage, least) {
                leaves_rule(run, run.triggered, run.summary, next)
            } else {
                &&& next == (LowSpaceRun {
                    phase: LowSpacePhase::Listing,
                    triggered: true,
                    deficit_bytes: next.deficit_bytes,
                    ..run
                })
                &&& next.deficit_bytes == missing_bytes(usage, least)
            }
        },
        (LowSpacePhase::Listing, LowSpaceEvent::Torrents(torrents)) => {
            let wanted = low_space_moves(torrents@, run.rules@, rule, run.deficit_bytes);
            let planned = LowSpaceSummary {
                batches_planned: raised(run.summary.batches_planned, 1),
                torrents_planned: raised(run.summary.torrents_planned, wanted.len()),
                ..run.summary
            };
            if exists|i: int|
                0 <= i < torrents@.len() && is_stray(#[trigger] torrents@[i], run.rules@, rule) {
                next == (LowSpaceRun { phase: LowSpacePhase::Aborted, ..run })
            } else {
                &&& move_views(next.moves@) == wanted
                &&& next.queued@.len() == 0
                &&& if wanted.len() == 0 {
                    leaves_rule(
                        (LowSpaceRun {
                            moves: next.moves,
                            queued: next.queued,
                            place: 0,
                            ..run
                        }),
                        run.triggered,
                        run.summary,
                        next,
                    )
                } else if run.dry_run {
                    leaves_rule(
                        (LowSpaceRun {
                            moves: next.moves,
                            queued: next.queued,
                            place: 0,
                            ..run
                        }),
                        run.triggered,
                        planned,
                        next,
                    )
                } else {
                    next == (LowSpaceRun {
                        phase: move_phase(next.moves@[0]),
                        moves: next.moves,
                        queued: next.queued,
                        place: 0,
                        summary: planned,
                        ..run
                    })
                }
            }
        },
        (LowSpacePhase::Disabling, LowSpaceEvent::Done) => next == (LowSpaceRun {
            phase: LowSpacePhase::Moving,
            ..run
        }),
        (LowSpacePhase::Moving, LowSpaceEvent::Done) => {
            &&& is_queued(run.queued@, run.moves@[run.place as int], next.queued@)
            &&& low_space_goes_on(
                run,
                next.queued@,
                LowSpaceSummary {
                    torrents_queued: raised(run.summary.torrents_queued, 1),
                    ..run.summary
                },
                next,
            )
        },
        (LowSpacePhase::Disabling, LowSpaceEvent::Failed) | (
            LowSpacePhase::Moving,
            LowSpaceEvent::Failed,
        ) => low_space_goes_on(
            run,
            run.queued@,
            LowSpaceSummary { failed: raised(run.summary.failed, 1), ..run.summary },
            next,
        ),
        (LowSpacePhase::Polling, LowSpaceEvent::Torrents(torrents)) => next == (LowSpaceRun {
            phase: if pending_count(torrents@, run.queued@, run.queued@.len()) == 0 {
                LowSpacePhase::Measuring
            } else {
                LowSpacePhase::Pausing
            },
            ..run
        }),
        (LowSpacePhase::Pausing, LowSpaceEvent::Woken) => next == (LowSpaceRun {
            phase: LowSpacePhase::Polling,
            ..run
        }),
        (LowSpacePhase::LoggingIn, LowSpaceEvent::Failed) | (
            LowSpacePhase::Measuring,
            LowSpaceEvent::Failed,
        ) | (LowSpacePhase::Listing, LowSpaceEvent::Failed) | (
            LowSpacePhase::Polling,
            LowSpaceEvent::Failed,
        ) => next == (LowSpaceRun { phase: LowSpacePhase::Aborted, ..run }),
        (LowSpacePhase::Finished, LowSpaceEvent::Woken) | (
            LowSpacePhase::Aborted,
            LowSpaceEvent::Woken,
        ) => if run.interval_secs is Some {
            &&& next == (LowSpaceRun {
                cycle: next.cycle,
                phase: LowSpacePhase::LoggingIn,
                at: 0,
                triggered: false,
                summary: no_rules(),
                ..run
            })
            &&& next.cycle == (if run.cycle < u64::MAX {
                run.cycle + 1
            } else {
                run.cycle as int
            })
        } else {
            next == run
        },
        _ => next == run,
    }
}

/// The hashes of accepted moves.
pub open spec fn queued_hashes(queued: Seq<QueuedMove>) -> Seq<Seq<char>> {
    Seq::new(queued.len(), |i: int| queued[i].hash@)
}

/// Whether an action is what a run asks for.
pub open spec fn is_low_space_action(run: LowSpaceRun, action: LowSpaceAction) -> bool {
    match run.phase {
        LowSpacePhase::LoggingIn => action is Login,
        LowSpacePhase::Measuring => action matches LowSpaceAction::MeasureSpace { path } && path@
            == run.rules@[run.at as int].source_path@,
        LowSpacePhase::Listing => action is ListTorrents,
        LowSpacePhase::Disabling => action matches LowSpaceAction::DisableAutoManagement { hash }
            && hash@ == run.moves@[run.place as int].hash@,
        LowSpacePhase::Moving => action matches LowSpaceAction::SetLocation { hash, location }
            && hash@ == run.moves@[run.place as int].hash@ && location@
            == run.moves@[run.place as int].destination@,
        LowSpacePhase::Polling => action matches LowSpaceAction::ListByHashes { hashes } && texts(
            hashes@,
        ) == queued_hashes(run.queued@),
        LowSpacePhase::Pausing => action == LowSpaceAction::Sleep(MOVE_POLL_INTERVAL_SECS),
        LowSpacePhase::Finished => match run.interval_secs {
            Some(seconds) => action == LowSpaceAction::Sleep(seconds),
            None => action == LowSpaceAction::Finish(
                if run.summary.failed > 0 {
                    Ending::Failures(run.summary.failed)
                } else {
                    Ending::Success
                },
            ),
        },
        LowSpacePhase::Aborted => match run.interval_secs {
            Some(seconds) => action == LowSpaceAction::Sleep(seconds),
            None => action == LowSpaceAction::Finish(Ending::Aborted),
        },
    }
}

fn hashes_of(queued: &Vec<QueuedMove>) -> (hashes: Vec<String>)
    ensures
        texts(hashes@) == queued_hashes(queued@),
{
    let mut hashes: Vec<String> = Vec::new();
    let mut i: usize = 0;
    while i < queued.len()
        invariant
            i <= queued@.len(),
            hashes@.len() == i,
            forall|j: int| 0 <= j < i ==> (#[trigger] hashes@[j])@ == queued@[j].hash@,
        decreases queued.len() - i,
    {
        hashes.push(queued[i].hash.clone());
        i = i + 1;
    }
    assert(texts(hashes@) =~= queued_hashes(queued@));
    hashes
}

fn raise(count: usize, by: usize) -> (sum: usize)
    ensures
        sum == raised(count, by as nat),
{
    count.saturating_add(by)
}

impl LowSpaceRun {
    /// What the run asks for.
    pub fn action(&self) -> (action: LowSpaceAction)
        requires
            self.wf(),
        ensures
            is_low_space_action(*self, action),
    {
        match self.phase {
            LowSpacePhase::LoggingIn => LowSpaceAction::Login,
            LowSpacePhase::Measuring => LowSpaceAction::MeasureSpace {
                path: self.rules[self.at].source_path.clone(),
            },
            LowSpacePhase::Listing => LowSpaceAction::ListTorrents,
            LowSpacePhase::Disabling => LowSpaceAction::DisableAutoManagement {
                hash: self.moves[self.place].hash.clone(),
            },
            LowSpacePhase::Moving => LowSpaceAction::SetLocation {
                hash: self.moves[self.place].hash.clone(),
                location: self.moves[self.place].destination.clone(),
            },
            LowSpacePhase::Polling => LowSpaceAction::ListByHashes {
                hashes: hashes_of(&self.queued),
            },
            LowSpacePhase::Pausing => LowSpaceAction::Sleep(MOVE_POLL_INTERVAL_SECS),
            LowSpacePhase::Finished => match self.interval_secs {
                Some(seconds) => LowSpaceAction::Sleep(seconds),
                None => LowSpaceAction::Finish(
                    if self.summary.failed > 0 {
                        Ending::Failures(self.summary.failed)
                    } else {
                        Ending::Success
                    },
                ),
            },
            LowSpacePhase::Aborted => match self.interval_secs {
                Some(seconds) => LowSpaceAction::Sleep(seconds),
                None => LowSpaceAction::Finish(Ending::Aborted),
            },
        }
    }

    /// Goes on at a place among the rules.
    fn enter(&mut self, from: usize, summary: LowSpaceSummary)
        requires
            from <= old(self).rules@.len(),
        ensures
            *final(self) == (LowSpaceRun {
                at: final(self).at,
                phase: final(self).phase,
                triggered: final(self).triggered,
                summary: final(self).summary,
                ..*old(self)
            }),
            final(self).position() == entered(old(self).rules@, from as int, summary),
            final(self).phase == LowSpacePhase::Measuring || final(self).phase
                == LowSpacePhase::Finished,
            final(self).phase == LowSpacePhase::Measuring ==> final(self).at
                < final(self).rules@.len() && final(self).rules@[final(
                self).at as int].min_free_space_percent is Some,
    {
        let mut at: usize = from;
        while at < self.rules.len()
            invariant
                at <= self.rules@.len(),
                *self == *old(self),
                entered(self.rules@, at as int, summary) == entered(
                    self.rules@,
                    from as int,
                    summary,
                ),
            decreases self.rules.len() - at,
        {
            if self.rules[at].min_free_space_percent.is_some() {
                let mut counted: LowSpaceSummary = summary;
                counted.rules_checked = raise(counted.rules_checked, 1);
                self.at = at;
                self.triggered = false;
                self.summary = counted;
                self.phase = LowSpacePhase::Measuring;
                return;
            }
            at = at + 1;
        }
        self.at = at;
        self.triggered = false;
        self.summary = summary;
        self.phase = LowSpacePhase::Finished;
    }

    /// Leaves the rule at hand.
    fn leave_rule(&mut self, summary: LowSpaceSummary)
        requires
            old(self).at < old(self).rules@.len(),
            old(self).interval_secs is Some ==> old(self).interval_secs->0 > 0,
        ensures
            leaves_rule(*old(self), old(self).triggered, summary, *final(self)),
            final(self).wf(),
    {
        let mut counted: LowSpaceSummary = summary;
        if self.triggered {
            counted.rules_triggered = raise(counted.rules_triggered, 1);
        }
        assert(self.at < self.rules.len());
        self.enter(self.at + 1, counted);
    }

    /// Goes on behind the move at hand.
    fn next_move(&mut self, summary: LowSpaceSummary)
        requires
            old(self).wf(),
            old(self).is_busy(),
        ensures
            low_space_goes_on(*old(self), old(self).queued@, summary, *final(self)),
            final(self).wf(),
    {
        assert(self.place < self.moves.len());
        self.place = self.place + 1;
        if self.place < self.moves.len() {
            self.phase = if self.moves[self.place].auto_tmm {
                LowSpacePhase::Disabling
            } else {
                LowSpacePhase::Moving
            };
            self.summary = summary;
        } else if self.queued.len() > 0 {
            self.phase = LowSpacePhase::Polling;
            self.summary = summary;
        } else {
            self.leave_rule(summary);
        }
    }

    /// Takes an answer.
    pub fn handle(&mut self, event: LowSpaceEvent)
        requires
            old(self).wf(),
        ensures
            final(self).wf(),
            low_space_next(*old(self), event, *final(self)),
    {
        match (self.phase, event) {
            (LowSpacePhase::LoggingIn, LowSpaceEvent::Done) => {
                self.enter(0, self.summary);
            },
            (LowSpacePhase::Measuring, LowSpaceEvent::Usage(usage)) => {
                if let Some(least) = self.rules[self.at].min_free_space_percent {
                    if enough_free_space(usage, least) {
                        self.leave_rule(self.summary);
                    } else {
                        self.triggered = true;
                        self.deficit_bytes = free_space_deficit_bytes(usage, least);
                        self.phase = LowSpacePhase::Listing;
                    }
                }
            },
            (LowSpacePhase::Listing, LowSpaceEvent::Torrents(torrents)) => {
                match plan_low_space_moves(
                    &torrents,
                    &self.rules,
                    &self.rules[self.at],
                    self.deficit_bytes,
                ) {
                    Err(_) => {
                        self.phase = LowSpacePhase::Aborted;
                    },
                    Ok(moves) => {
                        self.moves = moves;
                        self.queued = Vec::new();
                        self.place = 0;
                        let count: usize = self.moves.len();
                        assert(move_views(self.moves@).len() == count);
                        if count == 0 {
                            self.leave_rule(self.summary);
                        } else {
                            let mut summary: LowSpaceSummary = self.summary;
                            summary.batches_planned = raise(summary.batches_planned, 1);
                            summary.torrents_planned = raise(summary.torrents_planned, count);
                            if self.dry_run {
                                self.leave_rule(summary);
                            } else {
                                self.phase = if self.moves[0].auto_tmm {
                                    LowSpacePhase::Disabling
                                } else {
                                    LowSpacePhase::Moving
                                };
                                self.summary = summary;
                            }
                        }
                    },
                }
            },
            (LowSpacePhase::Disabling, LowSpaceEvent::Done) => {
                self.phase = LowSpacePhase::Moving;
            },
            (LowSpacePhase::Moving, LowSpaceEvent::Done) => {
                let ghost before = self.queued@;
                let planned = &self.moves[self.place];
                let queued = QueuedMove {
                    hash: planned.hash.clone(),
                    name: planned.name.clone(),
                    destination: planned.destination.clone(),
                };
                self.queued.push(queued);
                assert(self.queued@.drop_last() =~= before);
                let mut summary: LowSpaceSummary = self.summary;
                summary.torrents_queued = raise(summary.torrents_queued, 1);
                self.next_move(summary);
            },
            (LowSpacePhase::Disabling, LowSpaceEvent::Failed) | (
                LowSpacePhase::Moving,
                LowSpaceEvent::Failed,
            ) => {
                let mut summary: LowSpaceSummary = self.summary;
                summary.failed = raise(summary.failed, 1);
                self.next_move(summary);
            },
            (LowSpacePhase::Polling, LowSpaceEvent::Torrents(torrents)) => {
                self.phase = if count_pending_moves(&torrents, &self.queued) == 0 {
                    LowSpacePhase::Measuring
                } else {
                    LowSpacePhase::Pausing
                };
            },
            (LowSpacePhase::Pausing, LowSpaceEvent::Woken) => {
                self.phase = LowSpacePhase::Polling;
            },
            (LowSpacePhase::LoggingIn, LowSpaceEvent::Failed) | (
                LowSpacePhase::Measuring,
                LowSpaceEvent::Failed,
            ) | (LowSpacePhase::Listing, LowSpaceEvent::Failed) | (
                LowSpacePhase::Polling,
                LowSpaceEvent::Failed,
            ) => {
                self.phase = LowSpacePhase::Aborted;
            },
            (LowSpacePhase::Finished, LowSpaceEvent::Woken) | (
                LowSpacePhase::Aborted,
                LowSpaceEvent::Woken,
            ) => {
                if self.interval_secs.is_some() {
                    if self.cycle < u64::MAX {
                        self.cycle = self.cycle + 1;
                    }
                    self.at = 0;
                    self.triggered = false;
                    self.summary = empty_summary();
                    self.phase = LowSpacePhase::LoggingIn;
                }
            },
            _ => {},
        }
    }
}

/// Whether any rule asks for free space.
pub open spec fn any_asks_for_space(raw_rules: Seq<RuleConfig>) -> bool {
    exists|i: int|
        0 <= i < raw_rules.len() && (#[trigger] raw_rules[i]).min_free_space_percent is Some
}

/// Whether a run is at the beginning of its first cycle.
pub open spec fn is_low_space_start(
    run: LowSpaceRun,
    dry_run: bool,
    interval_secs: Option<u64>,
) -> bool {
    &&& run.wf()
    &&& run.dry_run == dry_run
    &&& run.interval_secs == interval_secs
    &&& run.cycle == 1
    &&& run.phase == LowSpacePhase::LoggingIn
    &&& run.summary == no_rules()
}

/// Whether an error tells why the rules of a configuration do not do.
pub open spec fn is_low_space_error(raw_rules: Seq<RuleConfig>, error: SetupError) -> bool {
    if raw_rules.len() == 0 {
        error is NoRules
    } else if exists|i: int|
        0 <= i < raw_rules.len() && #[trigger] rule_fault(raw_rules, i) is Some {
        error matches SetupError::Rule(error) && is_rule_error(raw_rules, error)
    } else {
        error is NoLowSpaceRules && !any_asks_for_space(raw_rules)
    }
}

fn start_low_space_run(
    raw_rules: Vec<RuleConfig>,
    dry_run: bool,
    interval_secs: Option<u64>,
) -> (outcome: Result<LowSpaceRun, SetupError>)
    requires
        interval_secs is Some ==> interval_secs->0 > 0,
    ensures
        match outcome {
            Ok(run) => raw_rules@.len() > 0 && are_rules(raw_rules@, run.rules@)
                && any_asks_for_space(raw_rules@) && is_low_space_start(
                run,
                dry_run,
                interval_secs,
            ),
            Err(error) => is_low_space_error(raw_rules@, error),
        },
{
    let ghost raw = raw_rules@;
    let rules = match check_rules(raw_rules) {
        Ok(rules) => rules,
        Err(error) => {
            proof {
                if raw.len() > 0 {
                    let index = error->Rule_0.index as int;
                    assert(rule_fault(raw, index) is Some);
                }
            }
            return Err(error);
        },
    };
    if !ensure_low_space_rules(&rules) {
        proof {
            assert forall|i: int| 0 <= i < raw.len() implies (
            #[trigger] raw[i]).min_free_space_percent is None by {
                assert(is_compiled(raw[i], i, rules@[i]));
            }
        }
        return Err(SetupError::NoLowSpaceRules);
    }
    proof {
        let i = choose|i: int|
            0 <= i < rules@.len() && (#[trigger] rules@[i]).min_free_space_percent is Some;
        assert(is_compiled(raw[i], i, rules@[i]));
        assert(raw[i].min_free_space_percent is Some);
    }
    let moves: Vec<PlannedMove> = Vec::new();
    let queued: Vec<QueuedMove> = Vec::new();
    Ok(
        LowSpaceRun {
            rules,
            dry_run,
            interval_secs,
            cycle: 1,
            phase: LowSpacePhase::LoggingIn,
            at: 0,
            triggered: false,
            deficit_bytes: 0,
            moves,
            place: 0,
            queued,
            summary: empty_summary(),
        },
    )
}

/// Begins a run over all rules that ask for free space; there has to be one.
pub fn run_move_on_low_space(raw_rules: Vec<RuleConfig>, dry_run: bool) -> (outcome: Result<
    LowSpaceRun,
    SetupError,
>)
    ensures
        match outcome {
            Ok(run) => raw_rules@.len() > 0 && are_rules(raw_rules@, run.rules@)
                && any_asks_for_space(raw_rules@) && is_low_space_start(run, dry_run, None),
            Err(error) => is_low_space_error(raw_rules@, error),
        },
{
    start_low_space_run(raw_rules, dry_run, None)
}

/// Begins a run that goes over all rules that ask for free space again and again, with a pause in
/// between.
pub fn run_move_on_low_space_daemon(
    raw_rules: Vec<RuleConfig>,
    dry_run: bool,
    interval_secs: u64,
) -> (outcome: Result<LowSpaceRun, SetupError>)
    ensures
        match outcome {
            Ok(run) => interval_secs > 0 && raw_rules@.len() > 0 && are_rules(
                raw_rules@,
                run.rules@,
            ) && any_asks_for_space(raw_rules@) && is_low_space_start(
                run,
                dry_run,
                Some(interval_secs),
            ),
            Err(error) => if interval_secs == 0 {
                error is ZeroInterval
            } else {
                is_low_space_error(raw_rules@, error)
            },
        },
{
    if interval_secs == 0 {
        return Err(SetupError::ZeroInterval);
    }
    start_low_space_run(raw_rules, dry_run, Some(interval_secs))
}

/// A dry run asks for no change.
pub proof fn law_dry_run_changes_nothing(run: LowSpaceRun, action: LowSpaceAction)
    requires
        run.wf(),
        run.dry_run,
        is_low_space_action(run, action),
    ensures
        !(action is DisableAutoManagement),
        !(action is SetLocation),
{
}

proof fn lemma_entered_phase(rules: Seq<Rule>, at: int, summary: LowSpaceSummary)
    ensures
        entered(rules, at, summary).phase == LowSpacePhase::Measuring || entered(
            rules,
            at,
            summary,
        ).phase == LowSpacePhase::Finished,
    decreases rules.len() - at,
{
    if at < rules.len() && rules[at].min_free_space_percent is None {
        lemma_entered_phase(rules, at + 1, summary);
    }
}

/// A torrent under automatic management is moved only once it has been taken out of it.
pub proof fn law_auto_management_ends_before_move(
    run: LowSpaceRun,
    event: LowSpaceEvent,
    next: LowSpaceRun,
)
    requires
        run.wf(),
        low_space_next(run, event, next),
        next.phase == LowSpacePhase::Moving,
        next.moves@[next.place as int].auto_tmm,
        next != run,
    ensures
        run.phase == LowSpacePhase::Disabling,
        event is Done,
        run.place == next.place,
        run.moves == next.moves,
{
    assert forall|at: int, counted: LowSpaceSummary|
        #![trigger entered(run.rules@, at, counted)]
        entered(run.rules@, at, counted).phase != LowSpacePhase::Moving by {
        lemma_entered_phase(run.rules@, at, counted);
    }
}

/// Space is measured again only once every move that was accepted is finished, and a cycle waits as
/// long as one is not.
pub proof fn law_batch_is_waited_for(run: LowSpaceRun, torrents: Vec<TorrentInfo>, next: LowSpaceRun)
    requires
        run.wf(),
        run.phase == LowSpacePhase::Polling,
        low_space_next(run, LowSpaceEvent::Torrents(torrents), next),
    ensures
        (next.phase == LowSpacePhase::Measuring) == (forall|i: int|
            0 <= i < run.queued@.len() ==> !is_pending(torrents@, #[trigger] run.queued@[i])),
        next.phase != LowSpacePhase::Measuring ==> next.phase == LowSpacePhase::Pausing,
        next.at == run.at,
{
    law_wait_ends_when_all_moves_are_done(torrents@, run.queued@, run.queued@.len());
}

/// The source of the rule that applies to a torrent always holds it.
pub proof fn law_rules_hold_their_torrents(
    raw_rules: Seq<RuleConfig>,
    rules: Seq<Rule>,
    at: int,
    torrent: TorrentInfo,
)
    requires
        are_rules(raw_rules, rules),
        0 <= at < rules.len(),
    ensures
        !is_stray(torrent, rules, rules[at]),
{
    let save_path = normal_path(torrent.save_path@);
    law_most_specific_rule_wins(rules, save_path);
    if let Some(place) = matching_rule(rules, save_path) {
        assert(is_compiled(raw_rules[place], place, rules[place]));
        assert(is_compiled(raw_rules[at], at, rules[at]));
    }
}

/// A run in cycles never ends: whatever became of a cycle, the next one follows after the pause.
pub proof fn law_daemon_goes_on(run: LowSpaceRun, action: LowSpaceAction, next: LowSpaceRun)
    requires
        run.wf(),
        run.interval_secs is Some,
        is_low_space_action(run, action),
    ensures
        !(action is Finish),
        (run.phase == LowSpacePhase::Finished || run.phase == LowSpacePhase::Aborted)
            && low_space_next(run, LowSpaceEvent::Woken, next) ==> next.phase
            == LowSpacePhase::LoggingIn && next.rules == run.rules,
{
}

/// A rule that asks for no free space is ignored: its filesystem is never measured.
pub proof fn law_rules_without_threshold_are_ignored(run: LowSpaceRun, action: LowSpaceAction)
    requires
        run.wf(),
        is_low_space_action(run, action),
        action is MeasureSpace,
    ensures
        run.at < run.rules@.len(),
        run.rules@[run.at as int].min_free_space_percent is Some,
        action->path@ == run.rules@[run.at as int].source_path@,
{
}

proof fn lemma_entered_is_next(rules: Seq<Rule>, at: int, summary: LowSpaceSummary)
    requires
        0 <= at <= rules.len(),
    ensures
        ({
            let position = entered(rules, at, summary);
            &&& position.phase == LowSpacePhase::Measuring || position.phase
                == LowSpacePhase::Finished
            &&& at <= position.at <= rules.len()
            &&& !position.triggered
            &&& position.phase == LowSpacePhase::Measuring ==> position.at < rules.len()
                && rules[position.at].min_free_space_percent is Some
            &&& position.phase == LowSpacePhase::Finished ==> position.at == rules.len()
            &&& forall|k: int|
                at <= k < position.at ==> (#[trigger] rules[k]).min_free_space_percent is None
        }),
    decreases rules.len() - at,
{
    if at < rules.len() && rules[at].min_free_space_percent is None {
        lemma_entered_is_next(rules, at + 1, summary);
    }
}

/// Whether a run goes on, behind a place among its rules, at the next rule that asks for free space,
/// and is finished only if there is none.
pub open spec fn goes_to_next_rule(rules: Seq<Rule>, behind: int, next: LowSpaceRun) -> bool {
    ||| {
        &&& next.phase == LowSpacePhase::Measuring
        &&& behind < next.at < rules.len()
        &&& rules[next.at as int].min_free_space_percent is Some
        &&& forall|k: int|
            behind < k < next.at ==> (#[trigger] rules[k]).min_free_space_percent is None
    }
    ||| {
        &&& next.phase == LowSpacePhase::Finished
        &&& forall|k: int|
            behind < k < rules.len() ==> (#[trigger] rules[k]).min_free_space_percent is None
    }
}

/// The rules are taken in turn: a cycle begins at the first rule that asks for free space, and a run
/// that leaves a rule, whether space was wanting or not, goes on at the next such rule; it is finished
/// only behind the last. A new rule begins untriggered.
pub proof fn law_rules_are_taken_in_turn(run: LowSpaceRun, event: LowSpaceEvent, next: LowSpaceRun)
    requires
        run.wf(),
        low_space_next(run, event, next),
    ensures
        run.phase == LowSpacePhase::LoggingIn && event is Done ==> goes_to_next_rule(
            run.rules@,
            -1,
            next,
        ) && !next.triggered,
        (run.phase == LowSpacePhase::Measuring || run.phase == LowSpacePhase::Listing
            || run.is_busy() || run.is_waiting()) && next.phase != LowSpacePhase::Aborted && (next.at
            != run.at || next.phase == LowSpacePhase::Finished) ==> goes_to_next_rule(
            run.rules@,
            run.at as int,
            next,
        ) && !next.triggered,
        next.rules == run.rules,
        next.dry_run == run.dry_run,
        next.interval_secs == run.interval_secs,
{
    assert forall|at: int, counted: LowSpaceSummary|
        #![trigger entered(run.rules@, at, counted)]
        0 <= at <= run.rules@.len() implies ({
        let position = entered(run.rules@, at, counted);
        &&& position.phase == LowSpacePhase::Measuring || position.phase == LowSpacePhase::Finished
        &&& at <= position.at <= run.rules@.len()
        &&& !position.triggered
        &&& position.phase == LowSpacePhase::Measuring ==> position.at < run.rules@.len()
            && run.rules@[position.at].min_free_space_percent is Some
        &&& position.phase == LowSpacePhase::Finished ==> position.at == run.rules@.len()
        &&& forall|k: int|
            at <= k < position.at ==> (#[trigger] run.rules@[k]).min_free_space_percent is None
    }) by {
        lemma_entered_is_next(run.rules@, at, counted);
    }
}

/// Whether states follow each other, from the login on, on the given answers, within one cycle.
pub open spec fn is_cycle(states: Seq<LowSpaceRun>, events: Seq<LowSpaceEvent>) -> bool {
    &&& states.len() == events.len() + 1
    &&& states[0].phase == LowSpacePhase::LoggingIn
    &&& forall|i: int| 0 <= i < states.len() ==> (#[trigger] states[i]).wf()
    &&& forall|i: int|
        0 <= i < events.len() ==> low_space_next(states[i], #[trigger] events[i], states[i + 1])
            && states[i].phase != LowSpacePhase::Finished && states[i].phase
            != LowSpacePhase::Aborted
}

/// The space of a rule was measured in one of the first `count` states.
pub open spec fn was_measured(states: Seq<LowSpaceRun>, count: int, place: int) -> bool {
    exists|k: int|
        0 <= k < count && (#[trigger] states[k]).phase == LowSpacePhase::Measuring && states[k].at
            == place
}

/// A cycle that is finished has measured the space of every rule that asks for free space.
pub proof fn law_every_threshold_is_looked_at(
    states: Seq<LowSpaceRun>,
    events: Seq<LowSpaceEvent>,
    place: int,
)
    requires
        is_cycle(states, events),
        states.last().phase == LowSpacePhase::Finished,
        0 <= place < states[0].rules@.len(),
        states[0].rules@[place].min_free_space_percent is Some,
    ensures
        was_measured(states, states.len() as int, place),
{
    lemma_measured_so_far(states, events, place, states.len() - 1);
}

proof fn lemma_measured_so_far(
    states: Seq<LowSpaceRun>,
    events: Seq<LowSpaceEvent>,
    place: int,
    at: int,
)
    requires
        is_cycle(states, events),
        0 <= at < states.len(),
        0 <= place < states[0].rules@.len(),
        states[0].rules@[place].min_free_space_percent is Some,
    ensures
        states[at].rules == states[0].rules,
        states[at].phase == LowSpacePhase::Finished ==> was_measured(states, at + 1, place),
        (states[at].phase == LowSpacePhase::Measuring || states[at].phase == LowSpacePhase::Listing
            || states[at].is_busy() || states[at].is_waiting()) && place <= states[at].at
            ==> was_measured(states, at + 1, place),
    decreases at,
{
    if at > 0 {
        lemma_measured_so_far(states, events, place, at - 1);
        let run = states[at - 1];
        let next = states[at];
        assert(low_space_next(run, events[at - 1], states[at - 1 + 1]));
        law_rules_are_taken_in_turn(run, events[at - 1], next);
        if was_measured(states, at, place) {
            let k = choose|k: int|
                0 <= k < at && (#[trigger] states[k]).phase == LowSpacePhase::Measuring
                    && states[k].at == place;
            assert(was_measured(states, at + 1, place));
        }
        if next.phase == LowSpacePhase::Measuring && next.at == place {
            assert(was_measured(states, at + 1, place));
        }
        assert(run.phase == LowSpacePhase::LoggingIn ==> next.phase == LowSpacePhase::LoggingIn
            || next.phase == LowSpacePhase::Aborted || goes_to_next_rule(run.rules@, -1, next));
    }
}

/// What a measurement leads to: a rule with enough free space is left as it is; else the torrents are
/// listed, and the bytes that are wanting are those by which the space available falls short of the
/// threshold's share of the filesystem, rounded up.
pub proof fn law_measuring_decides(run: LowSpaceRun, usage: FilesystemUsage, next: LowSpaceRun)
    requires
        run.wf(),
        run.phase == LowSpacePhase::Measuring,
        low_space_next(run, LowSpaceEvent::Usage(usage), next),
    ensures
        ({
            let least = run.rules@[run.at as int].min_free_space_percent->0;
            let share = if usage.total_bytes == 0 {
                of_integer(0)
            } else {
                of_integer(usage.available_bytes as int).quotient(
                    of_integer(usage.total_bytes as int),
                ).product(of_integer(100))
            };
            let enough = least.is_less(share) || least.is_same(share);
            let wanted = of_integer(usage.total_bytes as int).product(
                least.quotient(of_integer(100)),
            ).ceiling_within(u64::MAX as nat);
            &&& enough ==> goes_to_next_rule(run.rules@, run.at as int, next) && next.moves
                == run.moves && next.queued == run.queued
            &&& !enough ==> next.phase == LowSpacePhase::Listing && next.at == run.at
                && next.triggered && next.summary == run.summary
            &&& !enough && wanted >= usage.available_bytes ==> next.deficit_bytes == wanted
                - usage.available_bytes
            &&& !enough && wanted < usage.available_bytes ==> next.deficit_bytes == 0
        }),
{
    law_rules_are_taken_in_turn(run, LowSpaceEvent::Usage(usage), next);
    lemma_entered_is_next(
        run.rules@,
        run.at + 1,
        (if run.triggered {
            LowSpaceSummary {
                rules_triggered: raised(run.summary.rules_triggered, 1),
                ..run.summary
            }
        } else {
            run.summary
        }),
    );
}

/// What a listing leads to: with nothing to move the rule is left; else a dry run only counts what it
/// would move and leaves the rule, and any other run begins with the first move.
pub proof fn law_listing_decides(run: LowSpaceRun, torrents: Vec<TorrentInfo>, next: LowSpaceRun)
    requires
        run.wf(),
        run.phase == LowSpacePhase::Listing,
        low_space_next(run, LowSpaceEvent::Torrents(torrents), next),
        forall|i: int|
            0 <= i < torrents@.len() ==> !is_stray(
                #[trigger] torrents@[i],
                run.rules@,
                run.rules@[run.at as int],
            ),
    ensures
        ({
            let wanted = low_space_moves(
                torrents@,
                run.rules@,
                run.rules@[run.at as int],
                run.deficit_bytes,
            );
            &&& move_views(next.moves@) == wanted
            &&& next.queued@.len() == 0
            &&& wanted.len() == 0 || run.dry_run ==> goes_to_next_rule(
                run.rules@,
                run.at as int,
                next,
            )
            &&& wanted.len() > 0 && !run.dry_run ==> {
                &&& next.at == run.at
                &&& next.place == 0
                &&& next.phase == (if next.moves@[0].auto_tmm {
                    LowSpacePhase::Disabling
                } else {
                    LowSpacePhase::Moving
                })
            }
        }),
{
    law_rules_are_taken_in_turn(run, LowSpaceEvent::Torrents(torrents), next);
    assert forall|at: int, counted: LowSpaceSummary|
        #![trigger entered(run.rules@, at, counted)]
        at == run.at + 1 implies entered(run.rules@, at, counted).at > run.at && (entered(
        run.rules@,
        at,
        counted,
    ).phase == LowSpacePhase::Measuring || entered(run.rules@, at, counted).phase
        == LowSpacePhase::Finished) by {
        lemma_entered_is_next(run.rules@, at, counted);
    }
}

/// The moves of a batch are asked for one after the other, each once, whatever becomes of those
/// before; then those that were accepted are waited for, and with none accepted the rule is left. A
/// torrent that cannot be taken out of automatic management is not moved.
pub proof fn law_moves_are_made_in_turn(run: LowSpaceRun, event: LowSpaceEvent, next: LowSpaceRun)
    requires
        run.wf(),
        run.is_busy(),
        event is Done || event is Failed,
        low_space_next(run, event, next),
    ensures
        next.moves == run.moves,
        run.phase == LowSpacePhase::Disabling && event is Done ==> next.phase
            == LowSpacePhase::Moving && next.place == run.place && next.queued == run.queued
            && next.summary == run.summary,
        !(run.phase == LowSpacePhase::Disabling && event is Done) ==> {
            let accepted = event is Done;
            &&& next.place == run.place + 1
            &&& next.queued@.len() == run.queued@.len() + if accepted {
                1int
            } else {
                0
            }
            &&& forall|i: int|
                0 <= i < run.queued@.len() ==> #[trigger] next.queued@[i] == run.queued@[i]
            &&& accepted ==> next.queued@.last().hash@ == run.moves@[run.place as int].hash@
                && next.queued@.last().name@ == run.moves@[run.place as int].name@
                && next.queued@.last().destination@ == run.moves@[run.place as int].destination@
            &&& next.place < run.moves@.len() ==> next.at == run.at && next.phase == (
            if run.moves@[next.place as int].auto_tmm {
                LowSpacePhase::Disabling
            } else {
                LowSpacePhase::Moving
            })
            &&& next.place >= run.moves@.len() && next.queued@.len() > 0 ==> next.at == run.at
                && next.phase == LowSpacePhase::Polling
            &&& next.place >= run.moves@.len() && next.queued@.len() == 0 ==> goes_to_next_rule(
                run.rules@,
                run.at as int,
                next,
            )
        },
{
    law_rules_are_taken_in_turn(run, event, next);
    assert forall|at: int, counted: LowSpaceSummary|
        #![trigger entered(run.rules@, at, counted)]
        at == run.at + 1 implies entered(run.rules@, at, counted).at > run.at && (entered(
        run.rules@,
        at,
        counted,
    ).phase == LowSpacePhase::Measuring || entered(run.rules@, at, counted).phase
        == LowSpacePhase::Finished) by {
        lemma_entered_is_next(run.rules@, at, counted);
    }
    if run.phase == LowSpacePhase::Moving && event is Done {
        assert forall|i: int| 0 <= i < run.queued@.len() implies #[trigger] next.queued@[i]
            == run.queued@[i] by {
            assert(next.queued@.drop_last()[i] == next.queued@[i]);
        }
    }
}

/// What a cycle counts: rules as they are reached and as they are left with space wanting, batches
/// and their torrents as they are planned, and moves as they are accepted or fail.
pub proof fn law_cycles_are_counted(run: LowSpaceRun, event: LowSpaceEvent, next: LowSpaceRun)
    requires
        run.wf(),
        low_space_next(run, event, next),
        run.summary.rules_checked < usize::MAX,
        run.summary.rules_triggered < usize::MAX,
        run.summary.batches_planned < usize::MAX,
        run.summary.torrents_planned + next.moves@.len() <= usize::MAX,
        run.summary.torrents_queued < usize::MAX,
        run.summary.failed < usize::MAX,
        run.phase != LowSpacePhase::Finished,
        run.phase != LowSpacePhase::Aborted,
    ensures
        ({
            let left = next.at != run.at || next.phase == LowSpacePhase::Finished;
            let reached = next.phase == LowSpacePhase::Measuring && (next.at != run.at || run.phase
                == LowSpacePhase::LoggingIn);
            let planned = run.phase == LowSpacePhase::Listing && event is Torrents && next.phase
                != LowSpacePhase::Aborted && next.moves@.len() > 0;
            let refused = event is Failed && run.is_busy();
            let accepted = event is Done && run.phase == LowSpacePhase::Moving;
            &&& next.summary.rules_checked == run.summary.rules_checked + if reached {
                1int
            } else {
                0
            }
            &&& next.summary.rules_triggered == run.summary.rules_triggered + if left && run.phase
                != LowSpacePhase::LoggingIn && run.triggered {
                1int
            } else {
                0
            }
            &&& next.summary.batches_planned == run.summary.batches_planned + if planned {
                1int
            } else {
                0
            }
            &&& next.summary.torrents_planned == run.summary.torrents_planned + if planned {
                next.moves@.len() as int
            } else {
                0
            }
            &&& next.summary.torrents_queued == run.summary.torrents_queued + if accepted {
                1int
            } else {
                0
            }
            &&& next.summary.failed == run.summary.failed + if refused {
                1int
            } else {
                0
            }
        }),
{
    law_rules_are_taken_in_turn(run, event, next);
    assert forall|at: int, counted: LowSpaceSummary|
        #![trigger entered(run.rules@, at, counted)]
        0 <= at <= run.rules@.len() implies ({
        let position = entered(run.rules@, at, counted);
        &&& position.at >= at
        &&& position.phase == LowSpacePhase::Measuring || position.phase == LowSpacePhase::Finished
        &&& position.phase == LowSpacePhase::Finished ==> position.summary == counted
        &&& position.phase == LowSpacePhase::Measuring ==> position.summary == (LowSpaceSummary {
            rules_checked: raised(counted.rules_checked, 1),
            ..counted
        })
    }) by {
        lemma_entered_counts(run.rules@, at, counted);
        lemma_entered_is_next(run.rules@, at, counted);
    }
    assert(run.phase == LowSpacePhase::Listing && event is Torrents && next.phase
        != LowSpacePhase::Aborted ==> move_views(next.moves@).len() == next.moves@.len());
}

proof fn lemma_entered_counts(rules: Seq<Rule>, at: int, summary: LowSpaceSummary)
    ensures
        ({
            let position = entered(rules, at, summary);
            &&& position.phase == LowSpacePhase::Finished ==> position.summary == summary
            &&& position.phase == LowSpacePhase::Measuring ==> position.summary == (
            LowSpaceSummary { rules_checked: raised(summary.rules_checked, 1), ..summary })
        }),
    decreases rules.len() - at,
{
    if at < rules.len() && rules[at].min_free_space_percent is None {
        lemma_entered_counts(rules, at + 1, summary);
    }
}

/// A failed login, measurement or listing ends the cycle at once; a one-time run then fails as a
/// whole. A finished one-time run tells how many operations failed.
pub proof fn law_trouble_ends_the_cycle(
    run: LowSpaceRun,
    next: LowSpaceRun,
    action: LowSpaceAction,
)
    requires
        run.wf(),
        next.wf(),
        low_space_next(run, LowSpaceEvent::Failed, next),
        is_low_space_action(next, action),
    ensures
        run.phase == LowSpacePhase::LoggingIn || run.phase == LowSpacePhase::Measuring || run.phase
            == LowSpacePhase::Listing || run.phase == LowSpacePhase::Polling ==> next.phase
            == LowSpacePhase::Aborted,
        next.phase == LowSpacePhase::Aborted && next.interval_secs is None ==> action
            == LowSpaceAction::Finish(Ending::Aborted),
        next.phase == LowSpacePhase::Finished && next.interval_secs is None ==> action
            == LowSpaceAction::Finish(
            if next.summary.failed == 0 {
                Ending::Success
            } else {
                Ending::Failures(next.summary.failed)
            },
        ),
        (next.phase == LowSpacePhase::Finished || next.phase == LowSpacePhase::Aborted)
            && next.interval_secs is Some ==> action == LowSpaceAction::Sleep(
            next.interval_secs->0,
        ),
{
}

/// What a run asks for in each phase: the move at hand names the torrent and where it goes, and the
/// moves that are waited for are asked about by their hashes, in pauses of five seconds.
pub proof fn law_actions_name_what_is_at_hand(run: LowSpaceRun, action: LowSpaceAction)
    requires
        run.wf(),
        is_low_space_action(run, action),
    ensures
        action is Login <==> run.phase == LowSpacePhase::LoggingIn,
        action is MeasureSpace <==> run.phase == LowSpacePhase::Measuring,
        action is ListTorrents <==> run.phase == LowSpacePhase::Listing,
        action is DisableAutoManagement <==> run.phase == LowSpacePhase::Disabling,
        action is SetLocation <==> run.phase == LowSpacePhase::Moving,
        action is ListByHashes <==> run.phase == LowSpacePhase::Polling,
        action matches LowSpaceAction::DisableAutoManagement { hash } ==> hash@
            == run.moves@[run.place as int].hash@,
        action matches LowSpaceAction::SetLocation { hash, location } ==> hash@
            == run.moves@[run.place as int].hash@ && location@
            == run.moves@[run.place as int].destination@,
        action matches LowSpaceAction::ListByHashes { hashes } ==> hashes@.len()
            == run.queued@.len() && forall|i: int|
            0 <= i < hashes@.len() ==> (#[trigger] hashes@[i])@ == run.queued@[i].hash@,
        run.phase == LowSpacePhase::Pausing ==> action == LowSpaceAction::Sleep(5),
{
    if let LowSpaceAction::ListByHashes { hashes } = action {
        assert(texts(hashes@).len() == queued_hashes(run.queued@).len());
        assert forall|i: int| 0 <= i < hashes@.len() implies (#[trigger] hashes@[i])@
            == run.queued@[i].hash@ by {
            assert(texts(hashes@)[i] == queued_hashes(run.queued@)[i]);
        }
    }
}

/// After the pause the next cycle starts afresh, with the same rules and nothing counted.
pub proof fn law_new_cycle_starts_afresh(run: LowSpaceRun, next: LowSpaceRun)
    requires
        run.wf(),
        run.interval_secs is Some,
        run.phase == LowSpacePhase::Finished || run.phase == LowSpacePhase::Aborted,
        low_space_next(run, LowSpaceEvent::Woken, next),
    ensures
        next.phase == LowSpacePhase::LoggingIn,
        next.rules == run.rules,
        next.dry_run == run.dry_run,
        next.interval_secs == run.interval_secs,
        !next.triggered,
        run.cycle < u64::MAX ==> next.cycle == run.cycle + 1,
        next.summary.rules_checked == 0,
        next.summary.rules_triggered == 0,
        next.summary.batches_planned == 0,
        next.summary.torrents_planned == 0,
        next.summary.torrents_queued == 0,
        next.summary.failed == 0,
{
}

/// A run begins with a login, in its first cycle, with nothing counted. It is a dry run, and it pauses
/// between cycles, only if it was told so.
pub proof fn law_runs_begin_with_a_login(
    run: LowSpaceRun,
    dry_run: bool,
    interval_secs: Option<u64>,
)
    requires
        is_low_space_start(run, dry_run, interval_secs),
    ensures
        run.phase == LowSpacePhase::LoggingIn,
        run.cycle == 1,
        run.dry_run == dry_run,
        run.interval_secs == interval_secs,
        run.summary.rules_checked == 0,
        run.summary.rules_triggered == 0,
        run.summary.batches_planned == 0,
        run.summary.torrents_planned == 0,
        run.summary.torrents_queued == 0,
        run.summary.failed == 0,
{
}

/// Automatic management is switched off before a move if and only if the torrent has it.
pub proof fn law_managed_torrents_are_released_first(planned: PlannedMove)
    ensures
        move_phase(planned) == LowSpacePhase::Disabling <==> planned.auto_tmm,
        move_phase(planned) == LowSpacePhase::Moving <==> !planned.auto_tmm,
{
}

/// Why rules do not do: there is none, one of them has a fault, or none asks for free space; the first
/// of these that holds is the error.
pub proof fn law_rules_have_to_ask_for_space(raw_rules: Seq<RuleConfig>, error: SetupError, at: int)
    requires
        is_low_space_error(raw_rules, error),
    ensures
        raw_rules.len() == 0 <==> error is NoRules,
        0 <= at < raw_rules.len() && rule_fault(raw_rules, at) is Some ==> error is Rule,
        0 <= at < raw_rules.len() && raw_rules[at].min_free_space_percent is Some ==> !(
        error is NoLowSpaceRules),
        !(error is ZeroInterval),
{
}

} // verus!
