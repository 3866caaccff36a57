//! Removal tasks: which torrents the strategies of a task select, and the set of torrents that is
//! deleted on their account.

use crate::condition::{
    apply_condition, divided, law_condition_keeps_torrents, ConditionError, ConditionSpec, Division,
};
use crate::filter::{
    apply_filters, category_matches, is_wanted, status_matches, tracker_matches, wanted,
    FilterConfig,
};
use crate::order::lemma_multiset_concat;
use crate::torrent::{ClientStatus, Torrent};
use vstd::prelude::*;

verus! {

/// A strategy of a task: filters, and conditions that are applied in their order.
pub struct StrategyConfig {
    pub name: String,
    pub filters: FilterConfig,
    pub conditions: Vec<ConditionSpec>,
}

/// A removal task.
pub struct AutoremoveTask {
    pub name: String,
    /// Whether the data of a torrent is deleted with it.
    pub delete_data: bool,
    pub strategies: Vec<StrategyConfig>,
}

/// A torrent that is to be deleted.
pub struct DeleteCandidate {
    pub hash: String,
    pub name: String,
    /// The strategy that selected the torrent, or the one whose content it shares.
    pub strategy: String,
    /// The name of the torrent that was selected.
    pub group_primary: String,
    /// The hash of the torrent that was selected.
    pub group_primary_hash: String,
    /// How many other torrents share the content of the one that was selected.
    pub cross_seeds_found: usize,
}

/// What a candidate for deletion says.
pub struct CandidateView {
    pub hash: Seq<char>,
    pub name: Seq<char>,
    pub strategy: Seq<char>,
    pub group_primary: Seq<char>,
    pub group_primary_hash: Seq<char>,
    pub cross_seeds_found: int,
}

impl View for DeleteCandidate {
    type V = CandidateView;

    open spec fn view(&self) -> CandidateView {
        CandidateView {
            hash: self.hash@,
            name: self.name@,
            strategy: self.strategy@,
            group_primary: self.group_primary@,
            group_primary_hash: self.group_primary_hash@,
            cross_seeds_found: self.cross_seeds_found as int,
        }
    }
}

/// What a list of candidates says.
pub open spec fn candidate_views(candidates: Seq<DeleteCandidate>) -> Seq<CandidateView> {
    Seq::new(candidates.len(), |i: int| candidates[i]@)
}

/// Where a task failed.
#[derive(Clone, Copy, PartialEq, Eq, Structural, Debug)]
pub struct PlanError {
    /// The place of the strategy in the task.
    pub strategy: usize,
    /// The place of the condition in the strategy.
    pub condition: usize,
    pub error: ConditionError,
}

/// Whether a torrent is another seed of the content of a selected one.
pub open spec fn is_cross_seed(primary: Torrent, other: Torrent) -> bool {
    primary.content_path@.len() > 0 && primary.content_path@ == other.content_path@
        && primary.hash@ != other.hash@
}

/// How many of the first `count` torrents are other seeds of the content of a selected one.
pub open spec fn cross_seeds(torrents: Seq<Torrent>, primary: Torrent, count: nat) -> nat
    decreases count,
{
    if count == 0 {
        0
    } else {
        cross_seeds(torrents, primary, (count - 1) as nat) + if is_cross_seed(
            primary,
            torrents[count - 1],
        ) {
            1nat
        } else {
            0nat
        }
    }
}

/// The candidate that a torrent becomes on account of a selected one.
pub open spec fn candidate_for(
    torrents: Seq<Torrent>,
    primary: Torrent,
    torrent: Torrent,
    strategy: Seq<char>,
) -> CandidateView {
    CandidateView {
        hash: torrent.hash@,
        name: torrent.name@,
        strategy,
        group_primary: primary.name@,
        group_primary_hash: primary.hash@,
        cross_seeds_found: cross_seeds(torrents, primary, torrents.len()) as int,
    }
}

/// Whether a hash is among those to be deleted.
pub open spec fn is_listed(candidates: Seq<CandidateView>, hash: Seq<char>) -> bool {
    exists|i: int| 0 <= i < candidates.len() && (#[trigger] candidates[i]).hash == hash
}

/// The candidates with one more, unless its hash is among them already.
pub open spec fn recorded(candidates: Seq<CandidateView>, candidate: CandidateView) -> Seq<
    CandidateView,
> {
    if is_listed(candidates, candidate.hash) {
        candidates
    } else {
        candidates.push(candidate)
    }
}

/// The candidates with the other seeds, among the first `count` torrents, of the content of a
/// selected one.
pub open spec fn with_cross_seeds(
    candidates: Seq<CandidateView>,
    torrents: Seq<Torrent>,
    primary: Torrent,
    strategy: Seq<char>,
    count: nat,
) -> Seq<CandidateView>
    decreases count,
{
    if count == 0 {
        candidates
    } else {
        let before = with_cross_seeds(
            candidates,
            torrents,
            primary,
            strategy,
            (count - 1) as nat,
        );
        if is_cross_seed(primary, torrents[count - 1]) {
            recorded(before, candidate_for(torrents, primary, torrents[count - 1], strategy))
        } else {
            before
        }
    }
}

/// The candidates with the whole group of a selected torrent.
pub open spec fn with_group(
    candidates: Seq<CandidateView>,
    torrents: Seq<Torrent>,
    primary: Torrent,
    strategy: Seq<char>,
) -> Seq<CandidateView> {
    with_cross_seeds(
        recorded(candidates, candidate_for(torrents, primary, primary, strategy)),
        torrents,
        primary,
        strategy,
        torrents.len(),
    )
}

/// The candidates with the groups of the first `count` selected torrents.
pub open spec fn with_groups(
    candidates: Seq<CandidateView>,
    torrents: Seq<Torrent>,
    selected: Seq<&Torrent>,
    strategy: Seq<char>,
    count: nat,
) -> Seq<CandidateView>
    decreases count,
{
    if count == 0 {
        candidates
    } else {
        with_group(
            with_groups(candidates, torrents, selected, strategy, (count - 1) as nat),
            torrents,
            *selected[count - 1],
            strategy,
        )
    }
}

/// What remains of a list of torrents, and what is removed, after the first `count` conditions; or
/// the place of the condition that cannot be applied. `available` gives for each condition how many
/// bytes are free on the filesystem it names.
pub open spec fn conditions_applied<'a>(
    conditions: Seq<ConditionSpec>,
    client_status: ClientStatus,
    available: Seq<Option<u64>>,
    torrents: Seq<&'a Torrent>,
    now: i64,
    count: nat,
) -> Result<(Seq<&'a Torrent>, Seq<&'a Torrent>), (int, ConditionError)>
    decreases count,
{
    if count == 0 {
        Ok((torrents, Seq::empty()))
    } else {
        match conditions_applied(
            conditions,
            client_status,
            available,
            torrents,
            now,
            (count - 1) as nat,
        ) {
            Err(error) => Err(error),
            Ok((remain, removed)) => match divided(
                conditions[count - 1],
                client_status,
                available[count - 1],
                remain,
                now,
            ) {
                Err(error) => Err((count - 1, error)),
                Ok((less, more)) => Ok((less, removed + more)),
            },
        }
    }
}

/// The torrents that a strategy selects.
pub open spec fn strategy_selects<'a>(
    strategy: StrategyConfig,
    client_status: ClientStatus,
    available: Seq<Option<u64>>,
    torrents: &'a Vec<Torrent>,
    now: i64,
) -> Result<Seq<&'a Torrent>, (int, ConditionError)> {
    match conditions_applied(
        strategy.conditions@,
        client_status,
        available,
        wanted(strategy.filters, torrents, torrents@.len()),
        now,
        strategy.conditions@.len(),
    ) {
        Err(error) => Err(error),
        Ok((_, removed)) => Ok(removed),
    }
}

/// The torrents that the first `count` strategies of a task delete, or where the task fails.
pub open spec fn planned(
    strategies: Seq<StrategyConfig>,
    client_status: ClientStatus,
    available: Seq<Vec<Option<u64>>>,
    torrents: &Vec<Torrent>,
    now: i64,
    count: nat,
) -> Result<Seq<CandidateView>, (int, int, ConditionError)>
    decreases count,
{
    if count == 0 {
        Ok(Seq::empty())
    } else {
        match planned(strategies, client_status, available, torrents, now, (count - 1) as nat) {
            Err(error) => Err(error),
            Ok(before) => match strategy_selects(
                strategies[count - 1],
                client_status,
                available[count - 1]@,
                torrents,
                now,
            ) {
                Err((condition, error)) => Err((count - 1, condition, error)),
                Ok(selected) => Ok(
                    with_groups(
                        before,
                        torrents@,
                        selected,
                        strategies[count - 1].name@,
                        selected.len(),
                    ),
                ),
            },
        }
    }
}

fn cross_seed(primary: &Torrent, other: &Torrent) -> (cross: bool)
    ensures
        cross == is_cross_seed(*primary, *other),
{
    !primary.content_path.as_str().is_empty() && primary.content_path == other.content_path
        && primary.hash != other.hash
}

/// How many other torrents share the content of a selected one.
pub fn count_cross_seeds(torrents: &Vec<Torrent>, primary: &Torrent) -> (found: usize)
    ensures
        found == cross_seeds(torrents@, *primary, torrents@.len()),
{
    let mut found: usize = 0;
    let mut i: usize = 0;
    while i < torrents.len()
        invariant
            i <= torrents@.len(),
            found <= i,
            found == cross_seeds(torrents@, *primary, i as nat),
        decreases torrents.len() - i,
    {
        if cross_seed(primary, &torrents[i]) {
            found = found + 1;
        }
        i = i + 1;
    }
    found
}

/// Adds a torrent to those to be deleted, on account of a selected one, unless its hash is among
/// them already.
pub fn record_delete_candidate(
    candidates: &mut Vec<DeleteCandidate>,
    torrents: &Vec<Torrent>,
    primary: &Torrent,
    torrent: &Torrent,
    strategy_name: &str,
)
    ensures
        candidate_views(final(candidates)@) == recorded(
            candidate_views(old(candidates)@),
            candidate_for(torrents@, *primary, *torrent, strategy_name@),
        ),
{
    let ghost before = candidates@;
    let mut i: usize = 0;
    while i < candidates.len()
        invariant
            i <= candidates@.len(),
            candidates@ == before,
            forall|j: int|
                0 <= j < i ==> (#[trigger] candidate_views(before)[j]).hash != torrent.hash@,
        decreases candidates.len() - i,
    {
        assert(candidate_views(before)[i as int] == before[i as int]@);
        if candidates[i].hash == torrent.hash {
            assert(candidate_views(before)[i as int].hash == torrent.hash@);
            return;
        }
        i = i + 1;
    }
    let candidate = DeleteCandidate {
        hash: torrent.hash.clone(),
        name: torrent.name.clone(),
        strategy: String::from_str(strategy_name),
        group_primary: primary.name.clone(),
        group_primary_hash: primary.hash.clone(),
        cross_seeds_found: count_cross_seeds(torrents, primary),
    };
    candidates.push(candidate);
    assert(candidate_views(candidates@) =~= candidate_views(before).push(candidate@));
}

/// Adds a selected torrent and all others that share its content to those to be deleted.
pub fn record_group(
    candidates: &mut Vec<DeleteCandidate>,
    torrents: &Vec<Torrent>,
    primary: &Torrent,
    strategy_name: &str,
)
    ensures
        candidate_views(final(candidates)@) == with_group(
            candidate_views(old(candidates)@),
            torrents@,
            *primary,
            strategy_name@,
        ),
{
    record_delete_candidate(candidates, torrents, primary, primary, strategy_name);
    let ghost first = candidate_views(candidates@);
    let mut i: usize = 0;
    while i < torrents.len()
        invariant
            i <= torrents@.len(),
            candidate_views(candidates@) == with_cross_seeds(
                first,
                torrents@,
                *primary,
                strategy_name@,
                i as nat,
            ),
        decreases torrents.len() - i,
    {
        if cross_seed(primary, &torrents[i]) {
            record_delete_candidate(candidates, torrents, primary, &torrents[i], strategy_name);
        }
        i = i + 1;
    }
}

/// The torrents that a strategy selects, or the place of the condition that cannot be applied.
/// `available` gives for each condition how many bytes are free on the filesystem it names.
pub fn run_strategy<'a>(
    strategy: &StrategyConfig,
    client_status: &ClientStatus,
    available: &Vec<Option<u64>>,
    torrents: &'a Vec<Torrent>,
    now: i64,
) -> (outcome: Result<Vec<&'a Torrent>, (usize, ConditionError)>)
    requires
        available@.len() == strategy.conditions@.len(),
    ensures
        match outcome {
            Ok(selected) => strategy_selects(
                *strategy,
                *client_status,
                available@,
                torrents,
                now,
            ) == Ok::<Seq<&Torrent>, (int, ConditionError)>(selected@),
            Err((condition, error)) => condition < strategy.conditions@.len() && strategy_selects(
                *strategy,
                *client_status,
                available@,
                torrents,
                now,
            ) == Err::<Seq<&Torrent>, (int, ConditionError)>((condition as int, error)),
        },
{
    let ghost all = wanted(strategy.filters, torrents, torrents@.len());
    let mut remain = apply_filters(&strategy.filters, torrents);
    let mut selected: Vec<&'a Torrent> = Vec::new();
    let mut i: usize = 0;
    while i < strategy.conditions.len()
        invariant
            i <= strategy.conditions@.len(),
            available@.len() == strategy.conditions@.len(),
            all == wanted(strategy.filters, torrents, torrents@.len()),
            conditions_applied(
                strategy.conditions@,
                *client_status,
                available@,
                all,
                now,
                i as nat,
            ) == Ok::<(Seq<&Torrent>, Seq<&Torrent>), (int, ConditionError)>(
                (remain@, selected@),
            ),
        decreases strategy.conditions.len() - i,
    {
        match apply_condition(&strategy.conditions[i], client_status, available[i], remain, now) {
            Ok(division) => {
                let Division { remain: less, remove: mut more } = division;
                remain = less;
                selected.append(&mut more);
            },
            Err(error) => {
                proof {
                    lemma_error_stays(
                        strategy.conditions@,
                        *client_status,
                        available@,
                        all,
                        now,
                        (i + 1) as nat,
                        strategy.conditions@.len(),
                    );
                }
                return Err((i, error));
            },
        }
        i = i + 1;
    }
    Ok(selected)
}

proof fn lemma_error_stays(
    conditions: Seq<ConditionSpec>,
    client_status: ClientStatus,
    available: Seq<Option<u64>>,
    torrents: Seq<&Torrent>,
    now: i64,
    low: nat,
    high: nat,
)
    requires
        low <= high,
        conditions_applied(conditions, client_status, available, torrents, now, low) is Err,
    ensures
        conditions_applied(conditions, client_status, available, torrents, now, high)
            == conditions_applied(conditions, client_status, available, torrents, now, low),
    decreases high,
{
    if low < high {
        lemma_error_stays(
            conditions,
            client_status,
            available,
            torrents,
            now,
            low,
            (high - 1) as nat,
        );
    }
}

/// How the torrents of a list are cross-seeded.
#[derive(Clone, Copy, PartialEq, Eq, Structural, Debug)]
pub struct CrossSeedStats {
    /// How many groups of torrents with shared content the list touches.
    pub cross_seed_groups: usize,
    /// How many other torrents those groups hold.
    pub cross_seeds_found: u128,
}

/// What a strategy has come to.
#[derive(Clone, Copy, PartialEq, Eq, Structural, Debug)]
pub struct StrategyStats {
    pub selected_primaries: usize,
    pub cross_seeds: CrossSeedStats,
    pub unique_candidates_added: usize,
}

/// What a task has come to.
pub struct TaskPlan {
    /// The torrents to be deleted.
    pub candidates: Vec<DeleteCandidate>,
    /// What each strategy has come to.
    pub strategies: Vec<StrategyStats>,
    /// How the torrents that pass the filters of any strategy are cross-seeded.
    pub cross_seeds: CrossSeedStats,
}

/// No torrent before the one at `at` shares its content.
pub open spec fn is_first_of_group(list: Seq<&Torrent>, at: int) -> bool {
    forall|j: int|
        0 <= j < at ==> !(list[at].content_path@.len() > 0 && list[at].content_path@ == (
        #[trigger] list[j]).content_path@)
}

/// How many groups of torrents with shared content the first `count` torrents of a list touch.
pub open spec fn groups_touched(torrents: Seq<Torrent>, list: Seq<&Torrent>, count: nat) -> nat
    decreases count,
{
    if count == 0 {
        0
    } else {
        groups_touched(torrents, list, (count - 1) as nat) + if is_first_of_group(list, count - 1)
            && cross_seeds(torrents, *list[count - 1], torrents.len()) > 0 {
            1nat
        } else {
            0nat
        }
    }
}

/// How many other torrents the groups hold that the first `count` torrents of a list touch.
pub open spec fn seeds_touched(torrents: Seq<Torrent>, list: Seq<&Torrent>, count: nat) -> nat
    decreases count,
{
    if count == 0 {
        0
    } else {
        seeds_touched(torrents, list, (count - 1) as nat) + if is_first_of_group(list, count - 1) {
            cross_seeds(torrents, *list[count - 1], torrents.len())
        } else {
            0nat
        }
    }
}

/// Whether the figures are those of a list.
pub open spec fn is_cross_seed_stats(
    torrents: Seq<Torrent>,
    list: Seq<&Torrent>,
    stats: CrossSeedStats,
) -> bool {
    &&& stats.cross_seed_groups == groups_touched(torrents, list, list.len())
    &&& stats.cross_seeds_found == seeds_touched(torrents, list, list.len())
}

/// Whether a torrent passes the filters of any strategy.
pub open spec fn wanted_by_any(strategies: Seq<StrategyConfig>, torrent: Torrent) -> bool {
    exists|i: int|
        0 <= i < strategies.len() && is_wanted((#[trigger] strategies[i]).filters, torrent)
}

/// The torrents among the first `count` that pass the filters of any strategy.
pub open spec fn all_wanted<'a>(
    strategies: Seq<StrategyConfig>,
    torrents: &'a Vec<Torrent>,
    count: nat,
) -> Seq<&'a Torrent>
    decreases count,
{
    if count == 0 {
        Seq::empty()
    } else {
        let before = all_wanted(strategies, torrents, (count - 1) as nat);
        if wanted_by_any(strategies, torrents@[count - 1]) {
            before.push(&torrents@[count - 1])
        } else {
            before
        }
    }
}

/// Whether the figures of the strategy at `at` are what it has come to.
pub open spec fn is_strategy_stats(
    strategies: Seq<StrategyConfig>,
    client_status: ClientStatus,
    available: Seq<Vec<Option<u64>>>,
    torrents: &Vec<Torrent>,
    now: i64,
    at: int,
    stats: StrategyStats,
) -> bool {
    let before = planned(strategies, client_status, available, torrents, now, at as nat);
    let after = planned(strategies, client_status, available, torrents, now, (at + 1) as nat);
    match strategy_selects(strategies[at], client_status, available[at]@, torrents, now) {
        Err(_) => false,
        Ok(selected) => {
            &&& stats.selected_primaries == selected.len()
            &&& is_cross_seed_stats(torrents@, selected, stats.cross_seeds)
            &&& before is Ok
            &&& after is Ok
            &&& stats.unique_candidates_added == after->Ok_0.len() - before->Ok_0.len()
        },
    }
}

fn first_of_group(list: &Vec<&Torrent>, at: usize) -> (first: bool)
    requires
        at < list@.len(),
    ensures
        first == is_first_of_group(list@, at as int),
{
    let content_path = &list[at].content_path;
    if content_path.as_str().is_empty() {
        return true;
    }
    let mut j: usize = 0;
    while j < at
        invariant
            j <= at < list@.len(),
            content_path@ == list@[at as int].content_path@,
            content_path@.len() > 0,
            forall|k: int| 0 <= k < j ==> content_path@ != (#[trigger] list@[k]).content_path@,
        decreases at - j,
    {
        if *content_path == list[j].content_path {
            assert(list@[j as int].content_path@ == content_path@);
            return false;
        }
        j = j + 1;
    }
    true
}

proof fn lemma_cross_seeds_bound(torrents: Seq<Torrent>, primary: Torrent, count: nat)
    ensures
        cross_seeds(torrents, primary, count) <= count,
    decreases count,
{
    if count > 0 {
        lemma_cross_seeds_bound(torrents, primary, (count - 1) as nat);
    }
}

/// How the torrents of a list are cross-seeded.
pub fn cross_seed_stats(torrents: &Vec<Torrent>, list: &Vec<&Torrent>) -> (stats: CrossSeedStats)
    ensures
        is_cross_seed_stats(torrents@, list@, stats),
{
    let mut groups: usize = 0;
    let mut found: u128 = 0;
    let mut i: usize = 0;
    let len: usize = torrents.len();
    while i < list.len()
        invariant
            i <= list@.len(),
            len == torrents@.len(),
            groups <= i,
            groups == groups_touched(torrents@, list@, i as nat),
            found == seeds_touched(torrents@, list@, i as nat),
            found <= i * len,
        decreases list.len() - i,
    {
        if first_of_group(list, i) {
            let seeds: usize = count_cross_seeds(torrents, list[i]);
            proof {
                lemma_cross_seeds_bound(torrents@, *list@[i as int], torrents@.len());
                assert(i * len + len == (i + 1) * len) by (nonlinear_arith);
                assert((i + 1) * len <= u64::MAX * u64::MAX) by (nonlinear_arith)
                    requires
                        i + 1 <= u64::MAX,
                        len <= u64::MAX,
                        0 <= i + 1,
                ;
            }
            if seeds > 0 {
                groups = groups + 1;
            }
            found = found + seeds as u128;
        } else {
            assert(i * len <= (i + 1) * len) by (nonlinear_arith);
        }
        i = i + 1;
    }
    CrossSeedStats { cross_seed_groups: groups, cross_seeds_found: found }
}

fn any_wants(strategies: &Vec<StrategyConfig>, torrent: &Torrent) -> (any: bool)
    ensures
        any == wanted_by_any(strategies@, *torrent),
{
    let mut i: usize = 0;
    while i < strategies.len()
        invariant
            i <= strategies@.len(),
            forall|j: int|
                0 <= j < i ==> !is_wanted((#[trigger] strategies@[j]).filters, *torrent),
        decreases strategies.len() - i,
    {
        let filters = &strategies[i].filters;
        if category_matches(filters, torrent) && tracker_matches(filters, torrent)
            && status_matches(filters, torrent) {
            assert(is_wanted(strategies@[i as int].filters, *torrent));
            return true;
        }
        i = i + 1;
    }
    false
}

fn filtered_by_any<'a>(strategies: &Vec<StrategyConfig>, torrents: &'a Vec<Torrent>) -> (list: Vec<
    &'a Torrent,
>)
    ensures
        list@ == all_wanted(strategies@, torrents, torrents@.len()),
{
    let mut list: Vec<&'a Torrent> = Vec::new();
    let mut i: usize = 0;
    while i < torrents.len()
        invariant
            i <= torrents@.len(),
            list@ == all_wanted(strategies@, torrents, i as nat),
        decreases torrents.len() - i,
    {
        if any_wants(strategies, &torrents[i]) {
            list.push(&torrents[i]);
        }
        i = i + 1;
    }
    list
}

/// Whether `available` gives, for each condition of each strategy, how many bytes are free.
pub open spec fn is_measured(
    strategies: Seq<StrategyConfig>,
    available: Seq<Vec<Option<u64>>>,
) -> bool {
    &&& available.len() == strategies.len()
    &&& forall|i: int|
        0 <= i < strategies.len() ==> (#[trigger] available[i])@.len()
            == strategies[i].conditions@.len()
}

/// Plans a task: the torrents that its strategies delete, with the figures on them, or where it
/// fails. `available` gives, for each condition of each strategy, how many bytes are free on the
/// filesystem it names.
pub fn plan_task(
    task: &AutoremoveTask,
    client_status: &ClientStatus,
    available: &Vec<Vec<Option<u64>>>,
    torrents: &Vec<Torrent>,
    now: i64,
) -> (outcome: Result<TaskPlan, PlanError>)
    requires
        is_measured(task.strategies@, available@),
    ensures
        match outcome {
            Ok(plan) => {
                &&& planned(
                    task.strategies@,
                    *client_status,
                    available@,
                    torrents,
                    now,
                    task.strategies@.len(),
                ) == Ok::<Seq<CandidateView>, (int, int, ConditionError)>(
                    candidate_views(plan.candidates@),
                )
                &&& plan.strategies@.len() == task.strategies@.len()
                &&& forall|i: int|
                    0 <= i < plan.strategies@.len() ==> is_strategy_stats(
                        task.strategies@,
                        *client_status,
                        available@,
                        torrents,
                        now,
                        i,
                        #[trigger] plan.strategies@[i],
                    )
                &&& is_cross_seed_stats(
                    torrents@,
                    all_wanted(task.strategies@, torrents, torrents@.len()),
                    plan.cross_seeds,
                )
            },
            Err(error) => {
                &&& error.strategy < task.strategies@.len()
                &&& error.condition < task.strategies@[error.strategy as int].conditions@.len()
                &&& planned(
                    task.strategies@,
                    *client_status,
                    available@,
                    torrents,
                    now,
                    task.strategies@.len(),
                ) == Err::<Seq<CandidateView>, (int, int, ConditionError)>(
                    (error.strategy as int, error.condition as int, error.error),
                )
            },
        },
{
    let mut candidates: Vec<DeleteCandidate> = Vec::new();
    let mut stats: Vec<StrategyStats> = Vec::new();
    let mut at: usize = 0;
    assert(candidate_views(candidates@) =~= Seq::<CandidateView>::empty());
    while at < task.strategies.len()
        invariant
            at <= task.strategies@.len(),
            is_measured(task.strategies@, available@),
            planned(task.strategies@, *client_status, available@, torrents, now, at as nat) == Ok::<
                Seq<CandidateView>,
                (int, int, ConditionError),
            >(candidate_views(candidates@)),
            stats@.len() == at,
            forall|i: int|
                0 <= i < at ==> is_strategy_stats(
                    task.strategies@,
                    *client_status,
                    available@,
                    torrents,
                    now,
                    i,
                    #[trigger] stats@[i],
                ),
        decreases task.strategies.len() - at,
    {
        let strategy = &task.strategies[at];
        match run_strategy(strategy, client_status, &available[at], torrents, now) {
            Err((condition, error)) => {
                proof {
                    lemma_failure_stays(
                        task.strategies@,
                        *client_status,
                        available@,
                        torrents,
                        now,
                        (at + 1) as nat,
                        task.strategies@.len(),
                    );
                }
                return Err(PlanError { strategy: at, condition, error });
            },
            Ok(selected) => {
                let ghost before = candidate_views(candidates@);
                let count: usize = candidates.len();
                let mut k: usize = 0;
                while k < selected.len()
                    invariant
                        k <= selected@.len(),
                        before.len() == count,
                        count <= candidates@.len(),
                        candidate_views(candidates@) == with_groups(
                            before,
                            torrents@,
                            selected@,
                            strategy.name@,
                            k as nat,
                        ),
                    decreases selected.len() - k,
                {
                    let ghost sofar = candidate_views(candidates@);
                    record_group(&mut candidates, torrents, selected[k], strategy.name.as_str());
                    proof {
                        lemma_group_extends(sofar, torrents@, *selected@[k as int], strategy.name@);
                        assert(candidate_views(candidates@).len() == candidates@.len());
                        assert(sofar.len() >= count);
                    }
                    k = k + 1;
                }
                let figures = StrategyStats {
                    selected_primaries: selected.len(),
                    cross_seeds: cross_seed_stats(torrents, &selected),
                    unique_candidates_added: candidates.len() - count,
                };
                stats.push(figures);
                proof {
                    assert(candidate_views(candidates@).len() == candidates@.len());
                    assert(is_strategy_stats(
                        task.strategies@,
                        *client_status,
                        available@,
                        torrents,
                        now,
                        at as int,
                        figures,
                    ));
                }
            },
        }
        at = at + 1;
    }
    let list = filtered_by_any(&task.strategies, torrents);
    let cross_seeds = cross_seed_stats(torrents, &list);
    Ok(TaskPlan { candidates, strategies: stats, cross_seeds })
}

proof fn lemma_failure_stays(
    strategies: Seq<StrategyConfig>,
    client_status: ClientStatus,
    available: Seq<Vec<Option<u64>>>,
    torrents: &Vec<Torrent>,
    now: i64,
    low: nat,
    high: nat,
)
    requires
        low <= high,
        planned(strategies, client_status, available, torrents, now, low) is Err,
    ensures
        planned(strategies, client_status, available, torrents, now, high) == planned(
            strategies,
            client_status,
            available,
            torrents,
            now,
            low,
        ),
    decreases high,
{
    if low < high {
        lemma_failure_stays(
            strategies,
            client_status,
            available,
            torrents,
            now,
            low,
            (high - 1) as nat,
        );
    }
}

/// One list of candidates starts with another.
pub open spec fn extends(longer: Seq<CandidateView>, shorter: Seq<CandidateView>) -> bool {
    shorter.len() <= longer.len() && longer.take(shorter.len() as int) == shorter
}

proof fn lemma_extends_on(a: Seq<CandidateView>, b: Seq<CandidateView>, c: Seq<CandidateView>)
    requires
        extends(b, a),
        extends(c, b),
    ensures
        extends(c, a),
{
    assert(c.take(a.len() as int) =~= c.take(b.len() as int).take(a.len() as int));
}

proof fn lemma_recorded_extends(candidates: Seq<CandidateView>, candidate: CandidateView)
    ensures
        extends(recorded(candidates, candidate), candidates),
        is_listed(recorded(candidates, candidate), candidate.hash),
{
    let after = recorded(candidates, candidate);
    assert(after.take(candidates.len() as int) =~= candidates);
    if !is_listed(candidates, candidate.hash) {
        assert(after[candidates.len() as int].hash == candidate.hash);
    }
}

proof fn lemma_cross_seeds_extend(
    candidates: Seq<CandidateView>,
    torrents: Seq<Torrent>,
    primary: Torrent,
    strategy: Seq<char>,
    count: nat,
)
    ensures
        extends(
            with_cross_seeds(candidates, torrents, primary, strategy, count),
            candidates,
        ),
    decreases count,
{
    if count == 0 {
        assert(candidates.take(candidates.len() as int) =~= candidates);
    } else {
        lemma_cross_seeds_extend(candidates, torrents, primary, strategy, (count - 1) as nat);
        let before = with_cross_seeds(
            candidates,
            torrents,
            primary,
            strategy,
            (count - 1) as nat,
        );
        if is_cross_seed(primary, torrents[count - 1]) {
            let candidate = candidate_for(torrents, primary, torrents[count - 1], strategy);
            lemma_recorded_extends(before, candidate);
            lemma_extends_on(candidates, before, recorded(before, candidate));
        }
    }
}

proof fn lemma_group_extends(
    candidates: Seq<CandidateView>,
    torrents: Seq<Torrent>,
    primary: Torrent,
    strategy: Seq<char>,
)
    ensures
        extends(with_group(candidates, torrents, primary, strategy), candidates),
{
    let candidate = candidate_for(torrents, primary, primary, strategy);
    lemma_recorded_extends(candidates, candidate);
    lemma_cross_seeds_extend(
        recorded(candidates, candidate),
        torrents,
        primary,
        strategy,
        torrents.len(),
    );
    lemma_extends_on(
        candidates,
        recorded(candidates, candidate),
        with_group(candidates, torrents, primary, strategy),
    );
}

/// No two candidates have one hash.
pub open spec fn is_distinct(candidates: Seq<CandidateView>) -> bool {
    forall|i: int, j: int|
        0 <= i < j < candidates.len() ==> (#[trigger] candidates[i]).hash != (
        #[trigger] candidates[j]).hash
}

/// Whether a candidate stands for a torrent on account of one that is selected: that torrent itself
/// or another that shares its content.
pub open spec fn is_accounted(
    torrents: Seq<Torrent>,
    selected: Seq<&Torrent>,
    strategy: Seq<char>,
    candidate: CandidateView,
) -> bool {
    exists|k: int, torrent: Torrent|
        0 <= k < selected.len() && candidate == #[trigger] candidate_for(
            torrents,
            *#[trigger] selected[k],
            torrent,
            strategy,
        ) && (torrent == *selected[k] || (torrents.contains(torrent) && is_cross_seed(
            *selected[k],
            torrent,
        )))
}

/// Whether a candidate stands for another seed of the content of a selected torrent.
spec fn stands_for_cross_seed(
    torrents: Seq<Torrent>,
    primary: Torrent,
    strategy: Seq<char>,
    candidate: CandidateView,
) -> bool {
    exists|k: int|
        0 <= k < torrents.len() && is_cross_seed(primary, #[trigger] torrents[k]) && candidate
            == candidate_for(torrents, primary, torrents[k], strategy)
}

proof fn lemma_recorded_is_distinct(candidates: Seq<CandidateView>, candidate: CandidateView)
    requires
        is_distinct(candidates),
    ensures
        is_distinct(recorded(candidates, candidate)),
{
    let after = recorded(candidates, candidate);
    assert forall|i: int, j: int| 0 <= i < j < after.len() implies (#[trigger] after[i]).hash != (
    #[trigger] after[j]).hash by {
        assert(after[i] == candidates[i]);
        if j < candidates.len() {
            assert(after[j] == candidates[j]);
        }
    }
}

proof fn lemma_listed_stays(
    longer: Seq<CandidateView>,
    shorter: Seq<CandidateView>,
    hash: Seq<char>,
)
    requires
        extends(longer, shorter),
        is_listed(shorter, hash),
    ensures
        is_listed(longer, hash),
{
    let i = choose|i: int| 0 <= i < shorter.len() && (#[trigger] shorter[i]).hash == hash;
    assert(longer.take(shorter.len() as int)[i] == longer[i]);
    assert(longer[i].hash == hash);
}

proof fn lemma_with_cross_seeds(
    candidates: Seq<CandidateView>,
    torrents: Seq<Torrent>,
    primary: Torrent,
    strategy: Seq<char>,
    count: nat,
)
    requires
        is_distinct(candidates),
        count <= torrents.len(),
    ensures
        ({
            let after = with_cross_seeds(candidates, torrents, primary, strategy, count);
            &&& is_distinct(after)
            &&& forall|k: int|
                0 <= k < count && is_cross_seed(primary, #[trigger] torrents[k]) ==> is_listed(
                    after,
                    torrents[k].hash@,
                )
            &&& forall|i: int|
                candidates.len() <= i < after.len() ==> stands_for_cross_seed(
                    torrents,
                    primary,
                    strategy,
                    #[trigger] after[i],
                )
        }),
    decreases count,
{
    if count > 0 {
        let before = with_cross_seeds(
            candidates,
            torrents,
            primary,
            strategy,
            (count - 1) as nat,
        );
        let after = with_cross_seeds(candidates, torrents, primary, strategy, count);
        lemma_with_cross_seeds(candidates, torrents, primary, strategy, (count - 1) as nat);
        lemma_cross_seeds_extend(candidates, torrents, primary, strategy, (count - 1) as nat);
        if is_cross_seed(primary, torrents[count - 1]) {
            let candidate = candidate_for(torrents, primary, torrents[count - 1], strategy);
            lemma_recorded_is_distinct(before, candidate);
            lemma_recorded_extends(before, candidate);
            assert forall|k: int|
                0 <= k < count && is_cross_seed(primary, #[trigger] torrents[k]) implies is_listed(
                after,
                torrents[k].hash@,
            ) by {
                if k < count - 1 {
                    lemma_listed_stays(after, before, torrents[k].hash@);
                }
            }
            assert forall|i: int| candidates.len() <= i < after.len() implies stands_for_cross_seed(
                torrents,
                primary,
                strategy,
                #[trigger] after[i],
            ) by {
                if i < before.len() {
                    assert(after[i] == before[i]);
                } else {
                    assert(after[i] == candidate);
                    assert(is_cross_seed(primary, torrents[count - 1]));
                }
            }
        }
    }
}

proof fn lemma_with_groups(
    candidates: Seq<CandidateView>,
    torrents: Seq<Torrent>,
    selected: Seq<&Torrent>,
    strategy: Seq<char>,
    count: nat,
)
    requires
        is_distinct(candidates),
        count <= selected.len(),
    ensures
        ({
            let after = with_groups(candidates, torrents, selected, strategy, count);
            &&& is_distinct(after)
            &&& extends(after, candidates)
            &&& forall|k: int|
                0 <= k < count ==> is_listed(after, (#[trigger] selected[k]).hash@)
            &&& forall|k: int, m: int|
                0 <= k < count && 0 <= m < torrents.len() && is_cross_seed(
                    *#[trigger] selected[k],
                    #[trigger] torrents[m],
                ) ==> is_listed(after, torrents[m].hash@)
            &&& forall|i: int|
                candidates.len() <= i < after.len() ==> is_accounted(
                    torrents,
                    selected,
                    strategy,
                    #[trigger] after[i],
                )
        }),
    decreases count,
{
    if count == 0 {
        assert(candidates.take(candidates.len() as int) =~= candidates);
    } else {
        let before = with_groups(candidates, torrents, selected, strategy, (count - 1) as nat);
        let after = with_groups(candidates, torrents, selected, strategy, count);
        let primary = *selected[count - 1];
        let own = candidate_for(torrents, primary, primary, strategy);
        let first = recorded(before, own);
        lemma_with_groups(candidates, torrents, selected, strategy, (count - 1) as nat);
        lemma_recorded_is_distinct(before, own);
        lemma_recorded_extends(before, own);
        lemma_with_cross_seeds(first, torrents, primary, strategy, torrents.len());
        lemma_cross_seeds_extend(first, torrents, primary, strategy, torrents.len());
        lemma_group_extends(before, torrents, primary, strategy);
        lemma_extends_on(candidates, before, after);
        assert forall|k: int| 0 <= k < count implies is_listed(
            after,
            (#[trigger] selected[k]).hash@,
        ) by {
            if k < count - 1 {
                lemma_listed_stays(after, before, selected[k].hash@);
            } else {
                lemma_listed_stays(after, first, primary.hash@);
            }
        }
        assert forall|k: int, m: int|
            0 <= k < count && 0 <= m < torrents.len() && is_cross_seed(
                *#[trigger] selected[k],
                #[trigger] torrents[m],
            ) implies is_listed(after, torrents[m].hash@) by {
            if k < count - 1 {
                lemma_listed_stays(after, before, torrents[m].hash@);
            }
        }
        assert forall|i: int| candidates.len() <= i < after.len() implies is_accounted(
            torrents,
            selected,
            strategy,
            #[trigger] after[i],
        ) by {
            if i < before.len() {
                assert(after.take(before.len() as int)[i] == after[i]);
                assert(after[i] == before[i]);
            } else if i < first.len() {
                assert(after.take(first.len() as int)[i] == after[i]);
                assert(after[i] == first[i]);
                assert(after[i] == own);
                assert(own == candidate_for(
                    torrents,
                    *selected[count - 1],
                    primary,
                    strategy,
                ));
            } else {
                let k = choose|k: int|
                    0 <= k < torrents.len() && is_cross_seed(primary, #[trigger] torrents[k])
                        && after[i] == candidate_for(torrents, primary, torrents[k], strategy);
                assert(torrents.contains(torrents[k]));
                assert(after[i] == candidate_for(
                    torrents,
                    *selected[count - 1],
                    torrents[k],
                    strategy,
                ));
            }
        }
    }
}

/// No torrent is deleted twice, and what an earlier strategy has put among the candidates stays
/// there as it put it.
pub proof fn law_torrents_are_deleted_once(
    strategies: Seq<StrategyConfig>,
    client_status: ClientStatus,
    available: Seq<Vec<Option<u64>>>,
    torrents: &Vec<Torrent>,
    now: i64,
    earlier: nat,
    count: nat,
)
    requires
        earlier <= count <= strategies.len(),
    ensures
        planned(strategies, client_status, available, torrents, now, count) matches Ok(candidates)
            ==> is_distinct(candidates) && (planned(
            strategies,
            client_status,
            available,
            torrents,
            now,
            earlier,
        ) matches Ok(before) && extends(candidates, before)),
    decreases count,
{
    if count == 0 {
        assert(Seq::<CandidateView>::empty().take(0) =~= Seq::<CandidateView>::empty());
    } else {
        let previous = (count - 1) as nat;
        law_torrents_are_deleted_once(
            strategies,
            client_status,
            available,
            torrents,
            now,
            if earlier < count {
                earlier
            } else {
                previous
            },
            previous,
        );
        if let Ok(candidates) = planned(
            strategies,
            client_status,
            available,
            torrents,
            now,
            count,
        ) {
            let before = planned(
                strategies,
                client_status,
                available,
                torrents,
                now,
                previous,
            )->Ok_0;
            let selected = strategy_selects(
                strategies[count - 1],
                client_status,
                available[count - 1]@,
                torrents,
                now,
            )->Ok_0;
            lemma_with_groups(
                before,
                torrents@,
                selected,
                strategies[count - 1].name@,
                selected.len(),
            );
            if earlier < count {
                let first = planned(
                    strategies,
                    client_status,
                    available,
                    torrents,
                    now,
                    earlier,
                )->Ok_0;
                lemma_extends_on(first, before, candidates);
            } else {
                assert(candidates.take(candidates.len() as int) =~= candidates);
            }
        }
    }
}

/// Whatever a strategy selects is deleted, together with all that share its content.
pub proof fn law_groups_are_deleted_whole(
    strategies: Seq<StrategyConfig>,
    client_status: ClientStatus,
    available: Seq<Vec<Option<u64>>>,
    torrents: &Vec<Torrent>,
    now: i64,
    at: int,
    count: nat,
)
    requires
        0 <= at < count <= strategies.len(),
        planned(strategies, client_status, available, torrents, now, count) is Ok,
    ensures
        strategy_selects(strategies[at], client_status, available[at]@, torrents, now) is Ok,
        ({
            let candidates = planned(
                strategies,
                client_status,
                available,
                torrents,
                now,
                count,
            )->Ok_0;
            let selected = strategy_selects(
                strategies[at],
                client_status,
                available[at]@,
                torrents,
                now,
            )->Ok_0;
            &&& forall|k: int|
                0 <= k < selected.len() ==> is_listed(candidates, (#[trigger] selected[k]).hash@)
            &&& forall|k: int, m: int|
                0 <= k < selected.len() && 0 <= m < torrents@.len() && is_cross_seed(
                    *#[trigger] selected[k],
                    #[trigger] torrents@[m],
                ) ==> is_listed(candidates, torrents@[m].hash@)
        }),
{
    law_torrents_are_deleted_once(
        strategies,
        client_status,
        available,
        torrents,
        now,
        at as nat,
        count,
    );
    law_torrents_are_deleted_once(
        strategies,
        client_status,
        available,
        torrents,
        now,
        (at + 1) as nat,
        count,
    );
    law_torrents_are_deleted_once(
        strategies,
        client_status,
        available,
        torrents,
        now,
        at as nat,
        at as nat,
    );
    let candidates = planned(strategies, client_status, available, torrents, now, count)->Ok_0;
    let before = planned(strategies, client_status, available, torrents, now, at as nat)->Ok_0;
    let after = planned(
        strategies,
        client_status,
        available,
        torrents,
        now,
        (at + 1) as nat,
    )->Ok_0;
    let selected = strategy_selects(
        strategies[at],
        client_status,
        available[at]@,
        torrents,
        now,
    )->Ok_0;
    lemma_with_groups(before, torrents@, selected, strategies[at].name@, selected.len());
    assert forall|k: int| 0 <= k < selected.len() implies is_listed(
        candidates,
        (#[trigger] selected[k]).hash@,
    ) by {
        lemma_listed_stays(candidates, after, selected[k].hash@);
    }
    assert forall|k: int, m: int|
        0 <= k < selected.len() && 0 <= m < torrents@.len() && is_cross_seed(
            *#[trigger] selected[k],
            #[trigger] torrents@[m],
        ) implies is_listed(candidates, torrents@[m].hash@) by {
        lemma_listed_stays(candidates, after, torrents@[m].hash@);
    }
}

/// Nothing is deleted but what a strategy selects or what shares the content of such a torrent.
pub proof fn law_only_selected_groups_are_deleted(
    strategies: Seq<StrategyConfig>,
    client_status: ClientStatus,
    available: Seq<Vec<Option<u64>>>,
    torrents: &Vec<Torrent>,
    now: i64,
    count: nat,
    place: int,
)
    requires
        count <= strategies.len(),
        planned(strategies, client_status, available, torrents, now, count) is Ok,
        0 <= place < planned(
            strategies,
            client_status,
            available,
            torrents,
            now,
            count,
        )->Ok_0.len(),
    ensures
        exists|at: int|
            0 <= at < count && strategy_selects(
                #[trigger] strategies[at],
                client_status,
                available[at]@,
                torrents,
                now,
            ) is Ok && is_accounted(
                torrents@,
                strategy_selects(
                    strategies[at],
                    client_status,
                    available[at]@,
                    torrents,
                    now,
                )->Ok_0,
                strategies[at].name@,
                planned(
                    strategies,
                    client_status,
                    available,
                    torrents,
                    now,
                    count,
                )->Ok_0[place],
            ),
    decreases count,
{
    if count > 0 {
        let previous = (count - 1) as nat;
        let candidates = planned(strategies, client_status, available, torrents, now, count)->Ok_0;
        let before = planned(
            strategies,
            client_status,
            available,
            torrents,
            now,
            previous,
        )->Ok_0;
        law_torrents_are_deleted_once(
            strategies,
            client_status,
            available,
            torrents,
            now,
            previous,
            previous,
        );
        let selected = strategy_selects(
            strategies[count - 1],
            client_status,
            available[count - 1]@,
            torrents,
            now,
        )->Ok_0;
        lemma_with_groups(
            before,
            torrents@,
            selected,
            strategies[count - 1].name@,
            selected.len(),
        );
        if place < before.len() {
            law_only_selected_groups_are_deleted(
                strategies,
                client_status,
                available,
                torrents,
                now,
                previous,
                place,
            );
            assert(candidates.take(before.len() as int)[place] == candidates[place]);
        } else {
            assert(is_accounted(
                torrents@,
                selected,
                strategies[count - 1].name@,
                candidates[place],
            ));
        }
    }
}

proof fn lemma_conditions_keep_all(
    conditions: Seq<ConditionSpec>,
    client_status: ClientStatus,
    available: Seq<Option<u64>>,
    torrents: Seq<&Torrent>,
    now: i64,
    count: nat,
)
    ensures
        conditions_applied(conditions, client_status, available, torrents, now, count) matches Ok(
            (remain, removed),
        ) ==> (remain + removed).to_multiset() == torrents.to_multiset(),
    decreases count,
{
    if count == 0 {
        assert(torrents + Seq::<&Torrent>::empty() =~= torrents);
    } else {
        let previous = (count - 1) as nat;
        lemma_conditions_keep_all(
            conditions,
            client_status,
            available,
            torrents,
            now,
            previous,
        );
        if let Ok((remain, removed)) = conditions_applied(
            conditions,
            client_status,
            available,
            torrents,
            now,
            previous,
        ) {
            law_condition_keeps_torrents(
                conditions[count - 1],
                client_status,
                available[count - 1],
                remain,
                now,
            );
            if let Ok((less, more)) = divided(
                conditions[count - 1],
                client_status,
                available[count - 1],
                remain,
                now,
            ) {
                lemma_multiset_concat(remain, removed);
                lemma_multiset_concat(removed, more);
                lemma_multiset_concat(less, removed + more);
                assert((less + (removed + more)).to_multiset() =~= (remain
                    + removed).to_multiset());
            }
        }
    }
}

proof fn lemma_wanted_pass(filters: FilterConfig, torrents: &Vec<Torrent>, count: nat)
    requires
        count <= torrents@.len(),
    ensures
        forall|i: int|
            0 <= i < wanted(filters, torrents, count).len() ==> is_wanted(
                filters,
                *#[trigger] wanted(filters, torrents, count)[i],
            ) && torrents@.contains(*wanted(filters, torrents, count)[i]),
    decreases count,
{
    if count > 0 {
        lemma_wanted_pass(filters, torrents, (count - 1) as nat);
        assert(torrents@.contains(torrents@[count - 1]));
        let before = wanted(filters, torrents, (count - 1) as nat);
        let after = wanted(filters, torrents, count);
        assert forall|i: int| 0 <= i < after.len() implies is_wanted(
            filters,
            *#[trigger] after[i],
        ) && torrents@.contains(*after[i]) by {
            if i < before.len() {
                assert(after[i] == before[i]);
            } else {
                assert(*after[i] == torrents@[count - 1]);
            }
        }
    }
}

/// A strategy selects none but listed torrents that pass its filters.
pub proof fn law_selected_torrents_pass_filters(
    strategy: StrategyConfig,
    client_status: ClientStatus,
    available: Seq<Option<u64>>,
    torrents: &Vec<Torrent>,
    now: i64,
)
    ensures
        strategy_selects(strategy, client_status, available, torrents, now) matches Ok(selected)
            ==> forall|k: int|
            0 <= k < selected.len() ==> is_wanted(strategy.filters, *#[trigger] selected[k])
                && torrents@.contains(*selected[k]),
{
    broadcast use vstd::seq_lib::group_to_multiset_ensures;

    let all = wanted(strategy.filters, torrents, torrents@.len());
    lemma_wanted_pass(strategy.filters, torrents, torrents@.len());
    lemma_conditions_keep_all(
        strategy.conditions@,
        client_status,
        available,
        all,
        now,
        strategy.conditions@.len(),
    );
    if let Ok((remain, removed)) = conditions_applied(
        strategy.conditions@,
        client_status,
        available,
        all,
        now,
        strategy.conditions@.len(),
    ) {
        assert forall|k: int| 0 <= k < removed.len() implies is_wanted(
            strategy.filters,
            *#[trigger] removed[k],
        ) && torrents@.contains(*removed[k]) by {
            let both = remain + removed;
            assert(both[remain.len() + k] == removed[k]);
            assert(both.contains(removed[k]));
            assert(both.to_multiset().count(removed[k]) > 0);
            assert(all.to_multiset().count(removed[k]) > 0);
            assert(all.contains(removed[k]));
        }
    }
}

/// Whether two torrents are different seeds of one content: they lie at the same place, which is
/// known, and have different hashes.
pub open spec fn are_cross_seeded(left: Torrent, right: Torrent) -> bool {
    &&& left.content_path@ == right.content_path@
    &&& left.content_path@ != Seq::<char>::empty()
    &&& left.hash@ != right.hash@
}

/// Torrents are cross-seeded by their content path alone, and each other one in the list that shares
/// it is counted once.
pub proof fn law_cross_seeds_share_content(torrents: Seq<Torrent>, primary: Torrent, other: Torrent)
    ensures
        is_cross_seed(primary, other) == are_cross_seeded(primary, other),
        cross_seeds(torrents, primary, torrents.len()) == torrents.filter(
            |torrent: Torrent| are_cross_seeded(primary, torrent),
        ).len(),
{
    lemma_is_cross_seed(primary, other);
    lemma_cross_seeds_counted(torrents, primary, torrents.len());
    assert(torrents.take(torrents.len() as int) =~= torrents);
}

proof fn lemma_is_cross_seed(primary: Torrent, other: Torrent)
    ensures
        is_cross_seed(primary, other) == are_cross_seeded(primary, other),
{
    if primary.content_path@.len() == 0 {
        assert(primary.content_path@ =~= Seq::<char>::empty());
    }
}

proof fn lemma_cross_seeds_counted(torrents: Seq<Torrent>, primary: Torrent, count: nat)
    requires
        count <= torrents.len(),
    ensures
        cross_seeds(torrents, primary, count) == torrents.take(count as int).filter(
            |torrent: Torrent| are_cross_seeded(primary, torrent),
        ).len(),
    decreases count,
{
    reveal(Seq::filter);
    if count > 0 {
        lemma_cross_seeds_counted(torrents, primary, (count - 1) as nat);
        lemma_is_cross_seed(primary, torrents[count - 1]);
        assert(torrents.take(count as int).drop_last() =~= torrents.take(count - 1));
    } else {
        assert(torrents.take(0) =~= Seq::<Torrent>::empty());
    }
}

/// What a selected torrent adds to the candidates: those that are there stay, in front and as they
/// are. What is added is the torrent itself and all others in the list that share its content, unless
/// their hashes are there already; no hash is added twice. What is added names its torrent, the
/// strategy, the selected torrent, and how many others share the content of that.
pub proof fn law_selected_torrent_adds_its_group(
    candidates: Seq<CandidateView>,
    torrents: Seq<Torrent>,
    primary: Torrent,
    strategy: Seq<char>,
)
    requires
        forall|i: int, j: int|
            0 <= i < j < candidates.len() ==> (#[trigger] candidates[i]).hash != (
            #[trigger] candidates[j]).hash,
    ensures
        ({
            let after = with_group(candidates, torrents, primary, strategy);
            let found = torrents.filter(
                |torrent: Torrent| are_cross_seeded(primary, torrent),
            ).len();
            &&& after.len() >= candidates.len()
            &&& after.take(candidates.len() as int) == candidates
            &&& forall|i: int, j: int|
                0 <= i < j < after.len() ==> (#[trigger] after[i]).hash != (
                #[trigger] after[j]).hash
            &&& exists|i: int| 0 <= i < after.len() && (#[trigger] after[i]).hash == primary.hash@
            &&& forall|m: int|
                0 <= m < torrents.len() && are_cross_seeded(primary, #[trigger] torrents[m])
                    ==> exists|i: int|
                    0 <= i < after.len() && (#[trigger] after[i]).hash == torrents[m].hash@
            &&& forall|i: int|
                candidates.len() <= i < after.len() ==> {
                    &&& (#[trigger] after[i]).strategy == strategy
                    &&& after[i].group_primary == primary.name@
                    &&& after[i].group_primary_hash == primary.hash@
                    &&& after[i].cross_seeds_found == found
                    &&& (after[i].hash == primary.hash@ && after[i].name == primary.name@)
                        || exists|m: int|
                        0 <= m < torrents.len() && are_cross_seeded(primary, #[trigger] torrents[m])
                            && after[i].hash == torrents[m].hash@ && after[i].name
                            == torrents[m].name@
                }
        }),
{
    let own = candidate_for(torrents, primary, primary, strategy);
    let first = recorded(candidates, own);
    let after = with_group(candidates, torrents, primary, strategy);
    assert(is_distinct(candidates));
    lemma_recorded_is_distinct(candidates, own);
    lemma_recorded_extends(candidates, own);
    lemma_with_cross_seeds(first, torrents, primary, strategy, torrents.len());
    lemma_cross_seeds_extend(first, torrents, primary, strategy, torrents.len());
    lemma_extends_on(candidates, first, after);
    lemma_listed_stays(after, first, primary.hash@);
    law_cross_seeds_share_content(torrents, primary, primary);
    assert forall|m: int|
        0 <= m < torrents.len() && are_cross_seeded(primary, #[trigger] torrents[m]) implies exists|
        i: int,
    |
        0 <= i < after.len() && (#[trigger] after[i]).hash == torrents[m].hash@ by {
        lemma_is_cross_seed(primary, torrents[m]);
        assert(is_listed(after, torrents[m].hash@));
    }
    assert forall|i: int| candidates.len() <= i < after.len() implies {
        &&& (#[trigger] after[i]).strategy == strategy
        &&& after[i].group_primary == primary.name@
        &&& after[i].group_primary_hash == primary.hash@
        &&& after[i].cross_seeds_found == torrents.filter(
            |torrent: Torrent| are_cross_seeded(primary, torrent),
        ).len()
        &&& (after[i].hash == primary.hash@ && after[i].name == primary.name@) || exists|m: int|
            0 <= m < torrents.len() && are_cross_seeded(primary, #[trigger] torrents[m])
                && after[i].hash == torrents[m].hash@ && after[i].name == torrents[m].name@
    } by {
        if i < first.len() {
            assert(after.take(first.len() as int)[i] == after[i]);
            assert(after[i] == own);
        } else {
            let m = choose|m: int|
                0 <= m < torrents.len() && is_cross_seed(primary, #[trigger] torrents[m])
                    && after[i] == candidate_for(torrents, primary, torrents[m], strategy);
            lemma_is_cross_seed(primary, torrents[m]);
        }
    }
}

/// Whether lists of torrents follow from each other by the conditions of a strategy: each condition
/// divides what the one before has left.
pub open spec fn is_chain(
    conditions: Seq<ConditionSpec>,
    client_status: ClientStatus,
    available: Seq<Option<u64>>,
    now: i64,
    left: Seq<Seq<&Torrent>>,
    removed: Seq<Seq<&Torrent>>,
) -> bool {
    &&& left.len() == conditions.len() + 1
    &&& removed.len() == conditions.len()
    &&& forall|i: int|
        0 <= i < conditions.len() ==> divided(
            #[trigger] conditions[i],
            client_status,
            available[i],
            left[i],
            now,
        ) == Ok::<(Seq<&Torrent>, Seq<&Torrent>), ConditionError>((left[i + 1], removed[i]))
}

/// A strategy applies its conditions in turn, each to what the one before has left of the torrents
/// that pass the filters, and selects all that any of them removes. Conditions that can be applied to
/// what they get make a strategy that can be applied, and one that cannot makes one that fails.
pub proof fn law_conditions_are_applied_in_turn(
    strategy: StrategyConfig,
    client_status: ClientStatus,
    available: Seq<Option<u64>>,
    torrents: &Vec<Torrent>,
    now: i64,
)
    ensures
        strategy_selects(strategy, client_status, available, torrents, now) matches Ok(selected)
            ==> exists|left: Seq<Seq<&Torrent>>, removed: Seq<Seq<&Torrent>>| #[trigger]
            is_chain(strategy.conditions@, client_status, available, now, left, removed) && left[0]
                == wanted(strategy.filters, torrents, torrents@.len()) && selected
                == removed.flatten(),
        strategy_selects(strategy, client_status, available, torrents, now) matches Err(
            (at, error),
        ) ==> 0 <= at < strategy.conditions@.len() && exists|
            left: Seq<Seq<&Torrent>>,
            removed: Seq<Seq<&Torrent>>,
        | #[trigger]
            is_chain(
                strategy.conditions@.take(at),
                client_status,
                available,
                now,
                left,
                removed,
            ) && left[0] == wanted(strategy.filters, torrents, torrents@.len()) && divided(
                strategy.conditions@[at],
                client_status,
                available[at],
                left[at],
                now,
            ) == Err::<(Seq<&Torrent>, Seq<&Torrent>), ConditionError>(error),
{
    let all = wanted(strategy.filters, torrents, torrents@.len());
    lemma_chain(
        strategy.conditions@,
        client_status,
        available,
        all,
        now,
        strategy.conditions@.len(),
    );
    let count = strategy.conditions@.len();
    assert(strategy.conditions@.take(count as int) =~= strategy.conditions@);
}

proof fn lemma_chain(
    conditions: Seq<ConditionSpec>,
    client_status: ClientStatus,
    available: Seq<Option<u64>>,
    torrents: Seq<&Torrent>,
    now: i64,
    count: nat,
)
    requires
        count <= conditions.len(),
    ensures
        conditions_applied(conditions, client_status, available, torrents, now, count) matches Ok(
            (rest, selected),
        ) ==> exists|left: Seq<Seq<&Torrent>>, removed: Seq<Seq<&Torrent>>| #[trigger]
            is_chain(
                conditions.take(count as int),
                client_status,
                available,
                now,
                left,
                removed,
            ) && left[0] == torrents && left.last() == rest && selected == removed.flatten(),
        conditions_applied(conditions, client_status, available, torrents, now, count) matches Err(
            (at, error),
        ) ==> 0 <= at < count && exists|left: Seq<Seq<&Torrent>>, removed: Seq<Seq<&Torrent>>|
         #[trigger]
            is_chain(conditions.take(at), client_status, available, now, left, removed) && left[0]
                == torrents && divided(
                conditions[at],
                client_status,
                available[at],
                left[at],
                now,
            ) == Err::<(Seq<&Torrent>, Seq<&Torrent>), ConditionError>(error),
    decreases count,
{
    if count == 0 {
        let left: Seq<Seq<&Torrent>> = seq![torrents];
        let removed: Seq<Seq<&Torrent>> = Seq::empty();
        assert(is_chain(conditions.take(0), client_status, available, now, left, removed));
        assert(removed.flatten() =~= Seq::<&Torrent>::empty());
    } else {
        let fewer = (count - 1) as nat;
        lemma_chain(conditions, client_status, available, torrents, now, fewer);
        let front = conditions.take(fewer as int);
        let whole = conditions.take(count as int);
        if let Ok((rest, selected)) = conditions_applied(
            conditions,
            client_status,
            available,
            torrents,
            now,
            fewer,
        ) {
            let (left, removed) = choose|
                left: Seq<Seq<&Torrent>>,
                removed: Seq<Seq<&Torrent>>,
            | #[trigger]
                is_chain(front, client_status, available, now, left, removed) && left[0]
                    == torrents && left.last() == rest && selected == removed.flatten();
            match divided(conditions[count - 1], client_status, available[count - 1], rest, now) {
                Ok((less, more)) => {
                    let longer = left.push(less);
                    let cuts = removed.push(more);
                    assert forall|i: int| 0 <= i < whole.len() implies divided(
                        #[trigger] whole[i],
                        client_status,
                        available[i],
                        longer[i],
                        now,
                    ) == Ok::<(Seq<&Torrent>, Seq<&Torrent>), ConditionError>(
                        (longer[i + 1], cuts[i]),
                    ) by {
                        if i < fewer {
                            assert(front[i] == conditions[i]);
                            assert(longer[i] == left[i] && longer[i + 1] == left[i + 1]);
                        } else {
                            assert(longer[i] == left.last());
                        }
                    }
                    assert(is_chain(whole, client_status, available, now, longer, cuts));
                    removed.lemma_flatten_push(more);
                },
                Err(error) => {
                    assert(left[fewer as int] == left.last());
                },
            }
        }
    }
}

/// The strategies of a task add to the candidates in turn, each with all that it selects.
pub proof fn law_strategies_add_in_turn(
    strategies: Seq<StrategyConfig>,
    client_status: ClientStatus,
    available: Seq<Vec<Option<u64>>>,
    torrents: &Vec<Torrent>,
    now: i64,
    plan: TaskPlan,
    count: nat,
)
    requires
        count <= strategies.len(),
        plan.strategies@.len() == strategies.len(),
        forall|i: int|
            0 <= i < plan.strategies@.len() ==> is_strategy_stats(
                strategies,
                client_status,
                available,
                torrents,
                now,
                i,
                #[trigger] plan.strategies@[i],
            ),
    ensures
        planned(strategies, client_status, available, torrents, now, count) matches Ok(candidates)
            && candidates.len() == added_by(plan.strategies@, count),
        forall|i: int|
            0 <= i < count ==> selects_so_many(
                strategies[i],
                client_status,
                available[i]@,
                torrents,
                now,
                (#[trigger] plan.strategies@[i]).selected_primaries as nat,
            ),
    decreases count,
{
    if count > 0 {
        law_strategies_add_in_turn(
            strategies,
            client_status,
            available,
            torrents,
            now,
            plan,
            (count - 1) as nat,
        );
        assert(is_strategy_stats(
            strategies,
            client_status,
            available,
            torrents,
            now,
            count - 1,
            plan.strategies@[count - 1],
        ));
    }
    assert forall|i: int| 0 <= i < count implies selects_so_many(
        strategies[i],
        client_status,
        available[i]@,
        torrents,
        now,
        (#[trigger] plan.strategies@[i]).selected_primaries as nat,
    ) by {
        assert(is_strategy_stats(
            strategies,
            client_status,
            available,
            torrents,
            now,
            i,
            plan.strategies@[i],
        ));
    }
}

/// Whether a strategy selects so many torrents.
pub open spec fn selects_so_many(
    strategy: StrategyConfig,
    client_status: ClientStatus,
    available: Seq<Option<u64>>,
    torrents: &Vec<Torrent>,
    now: i64,
    count: nat,
) -> bool {
    strategy_selects(strategy, client_status, available, torrents, now) matches Ok(selected)
        && selected.len() == count
}

/// How many candidates the first `count` strategies have added.
pub open spec fn added_by(stats: Seq<StrategyStats>, count: nat) -> int
    decreases count,
{
    if count == 0 {
        0
    } else {
        added_by(stats, (count - 1) as nat) + stats[count - 1].unique_candidates_added
    }
}

/// The figures on a list of torrents: a group is counted once, however many of its torrents are in the
/// list, and with it every other torrent that belongs to it.
pub proof fn law_each_group_is_counted_once(
    torrents: Seq<Torrent>,
    list: Seq<&Torrent>,
    longer: Seq<&Torrent>,
    before: CrossSeedStats,
    after: CrossSeedStats,
)
    requires
        longer.len() == list.len() + 1,
        longer.drop_last() == list,
        is_cross_seed_stats(torrents, list, before),
        is_cross_seed_stats(torrents, longer, after),
    ensures
        ({
            let new = longer.last();
            let found = torrents.filter(|torrent: Torrent| are_cross_seeded(*new, torrent)).len();
            let known = exists|i: int|
                0 <= i < list.len() && (#[trigger] list[i]).content_path@ == new.content_path@
                    && new.content_path@ != Seq::<char>::empty();
            &&& list.len() == 0 ==> before.cross_seed_groups == 0 && before.cross_seeds_found == 0
            &&& known ==> after == before
            &&& !known ==> after.cross_seeds_found == before.cross_seeds_found + found
            &&& !known ==> after.cross_seed_groups == before.cross_seed_groups + if found > 0 {
                1int
            } else {
                0
            }
        }),
{
    let new = longer.last();
    law_cross_seeds_share_content(torrents, *new, *new);
    lemma_touched_of_front(torrents, list, longer, list.len());
    let at = list.len() as int;
    assert(longer[at] == new);
    if new.content_path@.len() == 0 {
        assert(new.content_path@ =~= Seq::<char>::empty());
    }
    let known = exists|i: int|
        0 <= i < list.len() && (#[trigger] list[i]).content_path@ == new.content_path@
            && new.content_path@ != Seq::<char>::empty();
    if known {
        let i = choose|i: int|
            0 <= i < list.len() && (#[trigger] list[i]).content_path@ == new.content_path@
                && new.content_path@ != Seq::<char>::empty();
        assert(longer.drop_last()[i] == longer[i]);
        assert(!is_first_of_group(longer, at));
    } else {
        assert forall|j: int| 0 <= j < at implies !(longer[at].content_path@.len() > 0
            && longer[at].content_path@ == (#[trigger] longer[j]).content_path@) by {
            assert(longer.drop_last()[j] == longer[j]);
            assert(list[j] == longer[j]);
        }
        assert(is_first_of_group(longer, at));
    }
}

proof fn lemma_touched_of_front(
    torrents: Seq<Torrent>,
    list: Seq<&Torrent>,
    longer: Seq<&Torrent>,
    count: nat,
)
    requires
        count <= list.len(),
        longer.len() == list.len() + 1,
        longer.drop_last() == list,
    ensures
        groups_touched(torrents, longer, count) == groups_touched(torrents, list, count),
        seeds_touched(torrents, longer, count) == seeds_touched(torrents, list, count),
    decreases count,
{
    if count > 0 {
        lemma_touched_of_front(torrents, list, longer, (count - 1) as nat);
        assert forall|j: int| 0 <= j < list.len() implies #[trigger] longer[j] == list[j] by {
            assert(longer.drop_last()[j] == longer[j]);
        }
        assert(longer[count - 1] == list[count - 1]);
        assert(is_first_of_group(longer, count - 1) == is_first_of_group(list, count - 1)) by {
            if is_first_of_group(list, count - 1) {
                assert forall|j: int| 0 <= j < count - 1 implies !(longer[count
                    - 1].content_path@.len() > 0 && longer[count - 1].content_path@ == (
                #[trigger] longer[j]).content_path@) by {
                    assert(list[j] == longer[j]);
                }
            }
            if is_first_of_group(longer, count - 1) {
                assert forall|j: int| 0 <= j < count - 1 implies !(list[count
                    - 1].content_path@.len() > 0 && list[count - 1].content_path@ == (
                #[trigger] list[j]).content_path@) by {
                    assert(list[j] == longer[j]);
                }
            }
        }
    }
}

/// The figures of a task are on the torrents that pass the filters of at least one strategy, each
/// taken once.
pub proof fn law_figures_are_on_filtered_torrents(
    strategies: Seq<StrategyConfig>,
    torrents: &Vec<Torrent>,
    longer: &Vec<Torrent>,
)
    requires
        longer@.len() == torrents@.len() + 1,
        longer@.drop_last() == torrents@,
    ensures
        torrents@.len() == 0 ==> all_wanted(strategies, torrents, torrents@.len()).len() == 0,
        all_wanted(strategies, longer, longer@.len()) == (if exists|i: int|
            0 <= i < strategies.len() && is_wanted(
                (#[trigger] strategies[i]).filters,
                longer@.last(),
            ) {
            all_wanted(strategies, torrents, torrents@.len()).push(&longer@.last())
        } else {
            all_wanted(strategies, torrents, torrents@.len())
        }),
{
    lemma_all_wanted_of_front(strategies, torrents, longer, torrents@.len());
}

proof fn lemma_all_wanted_of_front(
    strategies: Seq<StrategyConfig>,
    torrents: &Vec<Torrent>,
    longer: &Vec<Torrent>,
    count: nat,
)
    requires
        count <= torrents@.len(),
        longer@.len() == torrents@.len() + 1,
        longer@.drop_last() == torrents@,
    ensures
        all_wanted(strategies, longer, count) == all_wanted(strategies, torrents, count),
    decreases count,
{
    if count > 0 {
        lemma_all_wanted_of_front(strategies, torrents, longer, (count - 1) as nat);
        assert(longer@.drop_last()[count - 1] == longer@[count - 1]);
    }
}

/// One more strategy deletes what the strategies before it delete, and the groups of all torrents that
/// it selects itself, one after the other. One that fails makes the task fail.
pub proof fn law_each_strategy_builds_on_those_before(
    strategies: Seq<StrategyConfig>,
    client_status: ClientStatus,
    available: Seq<Vec<Option<u64>>>,
    torrents: &Vec<Torrent>,
    now: i64,
    count: nat,
)
    requires
        count < strategies.len(),
    ensures
        ({
            let before = planned(strategies, client_status, available, torrents, now, count);
            let after = planned(strategies, client_status, available, torrents, now, count + 1);
            let selected = strategy_selects(
                strategies[count as int],
                client_status,
                available[count as int]@,
                torrents,
                now,
            );
            &&& count == 0 ==> (before matches Ok(candidates) && candidates.len() == 0)
            &&& before is Err ==> after == before
            &&& before is Ok && selected is Err ==> after == Err::<
                Seq<CandidateView>,
                (int, int, ConditionError),
            >((count as int, selected->Err_0.0, selected->Err_0.1))
            &&& before is Ok && selected is Ok ==> after == Ok::<
                Seq<CandidateView>,
                (int, int, ConditionError),
            >(
                selected->Ok_0.fold_left(
                    before->Ok_0,
                    |candidates: Seq<CandidateView>, primary: &Torrent|
                        with_group(
                            candidates,
                            torrents@,
                            *primary,
                            strategies[count as int].name@,
                        ),
                ),
            )
        }),
{
    if let Ok(candidates) = planned(strategies, client_status, available, torrents, now, count) {
        if let Ok(selected) = strategy_selects(
            strategies[count as int],
            client_status,
            available[count as int]@,
            torrents,
            now,
        ) {
            lemma_groups_fold(
                candidates,
                torrents@,
                selected,
                strategies[count as int].name@,
                selected.len(),
            );
            assert(selected.take(selected.len() as int) =~= selected);
        }
    }
}

proof fn lemma_groups_fold(
    candidates: Seq<CandidateView>,
    torrents: Seq<Torrent>,
    selected: Seq<&Torrent>,
    strategy: Seq<char>,
    count: nat,
)
    requires
        count <= selected.len(),
    ensures
        with_groups(candidates, torrents, selected, strategy, count) == selected.take(
            count as int,
        ).fold_left(
            candidates,
            |candidates: Seq<CandidateView>, primary: &Torrent|
                with_group(candidates, torrents, *primary, strategy),
        ),
    decreases count,
{
    reveal(Seq::fold_left);
    if count > 0 {
        lemma_groups_fold(candidates, torrents, selected, strategy, (count - 1) as nat);
        assert(selected.take(count as int).drop_last() =~= selected.take(count - 1));
    }
}

} // verus!
