//! Which torrents have been complete for long enough, and where they and the torrents that share
//! their content go.

use crate::number::{of_integer, Number};
use crate::path::{components, normal_path, normalize_path, same_path};
use crate::rules::{
    holds_path, is_compiled, law_longest_source_applies, law_most_specific_rule_wins,
    law_rules_always_lead_elsewhere, match_rule, matching_rule, remap_save_path, remapped,
    rule_fault, Rule, RuleConfig,
};
use crate::setup::are_rules;
use crate::text::same_text;
use vstd::prelude::*;

verus! {

/// How many seconds a day has.
pub const SECONDS_PER_DAY: u64 = 86_400;

/// A torrent as qBittorrent lists it.
pub struct TorrentInfo {
    pub hash: String,
    pub name: String,
    pub progress: Number,
    pub completion_on: i64,
    pub save_path: String,
    /// Where the content lies; empty if qBittorrent does not say.
    pub content_path: String,
    pub size: u64,
    pub auto_tmm: bool,
    pub state: String,
}

/// Why a torrent is left where it is.
#[derive(Clone, Copy, PartialEq, Eq, Structural, Debug)]
pub enum SkipReason {
    Incomplete,
    NoCompletionTime,
    AlreadyMoving,
    NoRule,
    TooYoung { age_days: u64, min_days: u64 },
    AlreadyThere,
}

/// What is to be done about one torrent.
pub enum AgeStep {
    /// The torrent stays.
    Skip(SkipReason),
    /// The torrent goes where the first torrent of its group that is due goes.
    Move { leader: usize, destination: String },
}

/// Whether two torrents are seeds of the same content.
pub open spec fn shares_content(left: TorrentInfo, right: TorrentInfo) -> bool {
    left.content_path@.len() > 0 && left.content_path@ == right.content_path@
}

/// Whether the torrent at `other` belongs to the group of the one at `at`.
pub open spec fn in_group(torrents: Seq<TorrentInfo>, at: int, other: int) -> bool {
    at == other || shares_content(torrents[at], torrents[other])
}

/// How many seconds ago a torrent was completed; none if that lies ahead.
pub open spec fn age_seconds(torrent: TorrentInfo, now: u64) -> int {
    if now >= torrent.completion_on {
        now - torrent.completion_on
    } else {
        0
    }
}

/// How many seconds a rule wants a torrent to be complete, as far as they can be counted.
pub open spec fn min_age_seconds(rule: Rule) -> int {
    if rule.min_days_since_completion * SECONDS_PER_DAY <= u64::MAX {
        rule.min_days_since_completion * SECONDS_PER_DAY
    } else {
        u64::MAX as int
    }
}

/// Where the rule that applies to a torrent leads it.
pub open spec fn age_destination(torrent: TorrentInfo, rules: Seq<Rule>) -> Seq<char> {
    let save_path = normal_path(torrent.save_path@);
    remapped(save_path, rules[matching_rule(rules, save_path)->0])
}

/// Why a torrent, taken by itself, is not due; `None` if it is.
pub open spec fn skip_reason(torrent: TorrentInfo, rules: Seq<Rule>, now: u64) -> Option<
    SkipReason,
> {
    let save_path = normal_path(torrent.save_path@);
    let place = matching_rule(rules, save_path);
    if torrent.progress.is_less(of_integer(1)) {
        Some(SkipReason::Incomplete)
    } else if torrent.completion_on <= 0 {
        Some(SkipReason::NoCompletionTime)
    } else if torrent.state@ == "moving"@ {
        Some(SkipReason::AlreadyMoving)
    } else if place is None {
        Some(SkipReason::NoRule)
    } else if age_seconds(torrent, now) < min_age_seconds(rules[place->0]) {
        Some(
            SkipReason::TooYoung {
                age_days: (age_seconds(torrent, now) / SECONDS_PER_DAY as int) as u64,
                min_days: rules[place->0].min_days_since_completion,
            },
        )
    } else if components(age_destination(torrent, rules)) == components(save_path) {
        Some(SkipReason::AlreadyThere)
    } else {
        None
    }
}

/// Whether a torrent, taken by itself, is due to be moved.
pub open spec fn is_due(torrent: TorrentInfo, rules: Seq<Rule>, now: u64) -> bool {
    skip_reason(torrent, rules, now) is None
}

/// The torrent at `leader` is the first of the group of the one at `at` that is due.
pub open spec fn leads(
    torrents: Seq<TorrentInfo>,
    rules: Seq<Rule>,
    now: u64,
    at: int,
    leader: int,
) -> bool {
    &&& 0 <= leader < torrents.len()
    &&& in_group(torrents, at, leader)
    &&& is_due(torrents[leader], rules, now)
    &&& forall|k: int|
        0 <= k < leader && in_group(torrents, at, k) ==> !is_due(#[trigger] torrents[k], rules, now)
}

/// What is to be done about the torrent at `at`: it is moved if any torrent of its group is due.
pub open spec fn is_age_step(
    torrents: Seq<TorrentInfo>,
    rules: Seq<Rule>,
    now: u64,
    at: int,
    step: AgeStep,
) -> bool {
    match step {
        AgeStep::Move { leader, destination } => {
            &&& leads(torrents, rules, now, at, leader as int)
            &&& destination@ == age_destination(torrents[leader as int], rules)
        },
        AgeStep::Skip(reason) => {
            &&& skip_reason(torrents[at], rules, now) == Some(reason)
            &&& forall|k: int|
                0 <= k < torrents.len() && in_group(torrents, at, k) ==> !is_due(
                    #[trigger] torrents[k],
                    rules,
                    now,
                )
        },
    }
}

/// A torrent judged by itself: where it goes if it is due, and why not if it is not.
pub fn judge_age(torrent: &TorrentInfo, rules: &Vec<Rule>, now: u64) -> (verdict: Result<
    String,
    SkipReason,
>)
    ensures
        match verdict {
            Ok(destination) => is_due(*torrent, rules@, now) && destination@ == age_destination(
                *torrent,
                rules@,
            ),
            Err(reason) => skip_reason(*torrent, rules@, now) == Some(reason),
        },
{
    if torrent.progress.less(Number::from_natural(1)) {
        return Err(SkipReason::Incomplete);
    }
    if torrent.completion_on <= 0 {
        return Err(SkipReason::NoCompletionTime);
    }
    if same_text(torrent.state.as_str(), "moving") {
        return Err(SkipReason::AlreadyMoving);
    }
    let save_path = normalize_path(torrent.save_path.as_str());
    proof {
        law_most_specific_rule_wins(rules@, save_path@);
    }
    match match_rule(rules, save_path.as_str()) {
        None => Err(SkipReason::NoRule),
        Some(rule) => {
            let completed: u64 = torrent.completion_on as u64;
            let age: u64 = if now >= completed {
                now - completed
            } else {
                0
            };
            let least: u64 = match rule.min_days_since_completion.checked_mul(SECONDS_PER_DAY) {
                Some(seconds) => seconds,
                None => u64::MAX,
            };
            if age < least {
                return Err(
                    SkipReason::TooYoung {
                        age_days: age / SECONDS_PER_DAY,
                        min_days: rule.min_days_since_completion,
                    },
                );
            }
            match remap_save_path(save_path.as_str(), rule) {
                None => Err(SkipReason::NoRule),
                Some(destination) => {
                    if same_path(destination.as_str(), save_path.as_str()) {
                        Err(SkipReason::AlreadyThere)
                    } else {
                        Ok(destination)
                    }
                },
            }
        },
    }
}

/// Whether two torrents are seeds of the same content.
pub fn same_content(left: &TorrentInfo, right: &TorrentInfo) -> (same: bool)
    ensures
        same == shares_content(*left, *right),
{
    !left.content_path.as_str().is_empty() && left.content_path == right.content_path
}

/// What is to be done about each torrent of a listing, in its order.
pub fn plan_age_moves(torrents: &Vec<TorrentInfo>, rules: &Vec<Rule>, now: u64) -> (steps: Vec<
    AgeStep,
>)
    ensures
        steps@.len() == torrents@.len(),
        forall|i: int|
            0 <= i < steps@.len() ==> is_age_step(torrents@, rules@, now, i, #[trigger] steps@[i]),
{
    let mut verdicts: Vec<Result<String, SkipReason>> = Vec::new();
    let mut i: usize = 0;
    while i < torrents.len()
        invariant
            i <= torrents@.len(),
            verdicts@.len() == i,
            forall|j: int|
                0 <= j < i ==> (match #[trigger] verdicts@[j] {
                    Ok(destination) => is_due(torrents@[j], rules@, now) && destination@
                        == age_destination(torrents@[j], rules@),
                    Err(reason) => skip_reason(torrents@[j], rules@, now) == Some(reason),
                }),
        decreases torrents.len() - i,
    {
        let verdict = judge_age(&torrents[i], rules, now);
        verdicts.push(verdict);
        i = i + 1;
    }
    let mut steps: Vec<AgeStep> = Vec::new();
    let mut at: usize = 0;
    while at < torrents.len()
        invariant
            at <= torrents@.len(),
            verdicts@.len() == torrents@.len(),
            forall|j: int|
                0 <= j < verdicts@.len() ==> (match #[trigger] verdicts@[j] {
                    Ok(destination) => is_due(torrents@[j], rules@, now) && destination@
                        == age_destination(torrents@[j], rules@),
                    Err(reason) => skip_reason(torrents@[j], rules@, now) == Some(reason),
                }),
            steps@.len() == at,
            forall|j: int|
                0 <= j < at ==> is_age_step(torrents@, rules@, now, j, #[trigger] steps@[j]),
        decreases torrents.len() - at,
    {
        let step = age_step(torrents, rules, now, &verdicts, at);
        steps.push(step);
        at = at + 1;
    }
    steps
}

fn age_step(
    torrents: &Vec<TorrentInfo>,
    rules: &Vec<Rule>,
    now: u64,
    verdicts: &Vec<Result<String, SkipReason>>,
    at: usize,
) -> (step: AgeStep)
    requires
        at < torrents@.len(),
        verdicts@.len() == torrents@.len(),
        forall|j: int|
            0 <= j < verdicts@.len() ==> (match #[trigger] verdicts@[j] {
                Ok(destination) => is_due(torrents@[j], rules@, now) && destination@
                    == age_destination(torrents@[j], rules@),
                Err(reason) => skip_reason(torrents@[j], rules@, now) == Some(reason),
            }),
    ensures
        is_age_step(torrents@, rules@, now, at as int, step),
{
    let mut k: usize = 0;
    while k < torrents.len()
        invariant
            k <= torrents@.len(),
            at < torrents@.len(),
            verdicts@.len() == torrents@.len(),
            forall|j: int|
                0 <= j < verdicts@.len() ==> (match #[trigger] verdicts@[j] {
                    Ok(destination) => is_due(torrents@[j], rules@, now) && destination@
                        == age_destination(torrents@[j], rules@),
                    Err(reason) => skip_reason(torrents@[j], rules@, now) == Some(reason),
                }),
            forall|j: int|
                0 <= j < k && in_group(torrents@, at as int, j) ==> !is_due(
                    #[trigger] torrents@[j],
                    rules@,
                    now,
                ),
        decreases torrents.len() - k,
    {
        if k == at || same_content(&torrents[at], &torrents[k]) {
            match &verdicts[k] {
                Ok(destination) => {
                    return AgeStep::Move { leader: k, destination: destination.clone() };
                },
                Err(_) => {},
            }
        }
        k = k + 1;
    }
    match &verdicts[at] {
        Ok(destination) => {
            assert(is_due(torrents@[at as int], rules@, now));
            AgeStep::Move { leader: at, destination: destination.clone() }
        },
        Err(reason) => AgeStep::Skip(*reason),
    }
}

/// Torrents that share their content are moved together, to one destination, or not at all.
pub proof fn law_group_moves_together(
    torrents: Seq<TorrentInfo>,
    rules: Seq<Rule>,
    now: u64,
    left: int,
    right: int,
    left_step: AgeStep,
    right_step: AgeStep,
)
    requires
        0 <= left < torrents.len(),
        0 <= right < torrents.len(),
        shares_content(torrents[left], torrents[right]),
        is_age_step(torrents, rules, now, left, left_step),
        is_age_step(torrents, rules, now, right, right_step),
    ensures
        left_step is Move == right_step is Move,
        left_step is Move ==> left_step->destination@ == right_step->destination@
            && left_step->leader == right_step->leader,
{
    assert forall|k: int| 0 <= k < torrents.len() implies in_group(torrents, left, k) == in_group(
        torrents,
        right,
        k,
    ) by {}
    match left_step {
        AgeStep::Move { leader, .. } => {
            assert(is_due(torrents[leader as int], rules, now));
            if let AgeStep::Move { leader: other, .. } = right_step {
                assert(is_due(torrents[other as int], rules, now));
            }
        },
        AgeStep::Skip(_) => {
            if let AgeStep::Move { leader: other, .. } = right_step {
                assert(is_due(torrents[other as int], rules, now));
            }
        },
    }
}

/// A torrent that is due is moved, and one without content of others is moved only if it is due.
pub proof fn law_due_torrents_move(
    torrents: Seq<TorrentInfo>,
    rules: Seq<Rule>,
    now: u64,
    at: int,
    step: AgeStep,
)
    requires
        0 <= at < torrents.len(),
        is_age_step(torrents, rules, now, at, step),
    ensures
        is_due(torrents[at], rules, now) ==> step is Move,
        torrents[at].content_path@.len() == 0 ==> (step is Move) == is_due(
            torrents[at],
            rules,
            now,
        ),
{
    assert(in_group(torrents, at, at));
    if step is Skip {
        assert(!is_due(torrents[at], rules, now));
    }
}

/// A torrent is due if and only if it is complete, has a completion time, is not being moved, lies
/// where a rule applies, has been complete for the days that the rule asks for, and is not where the
/// rule leads it.
pub proof fn law_when_a_torrent_is_due(torrent: TorrentInfo, rules: Seq<Rule>, now: u64)
    ensures
        is_due(torrent, rules, now) <==> {
            &&& !torrent.progress.is_less(of_integer(1))
            &&& torrent.completion_on > 0
            &&& torrent.state@ != "moving"@
            &&& matching_rule(rules, normal_path(torrent.save_path@)) matches Some(place) && {
                &&& rules[place].min_days_since_completion == 0 || torrent.completion_on
                    + rules[place].min_days_since_completion * 86_400 <= now
                &&& components(remapped(normal_path(torrent.save_path@), rules[place]))
                    != components(normal_path(torrent.save_path@))
            }
        },
        is_due(torrent, rules, now) ==> age_destination(torrent, rules) == remapped(
            normal_path(torrent.save_path@),
            rules[matching_rule(rules, normal_path(torrent.save_path@))->0],
        ),
{
}

/// Under checked rules every complete torrent that lies below the source of the rule that applies to
/// it, or in the source itself, is due once it is old enough, and goes to the same place below the
/// target.
pub proof fn law_old_torrents_below_a_source_are_due(
    raw_rules: Seq<RuleConfig>,
    rules: Seq<Rule>,
    torrent: TorrentInfo,
    now: u64,
    place: int,
)
    requires
        are_rules(raw_rules, rules),
        matching_rule(rules, normal_path(torrent.save_path@)) == Some(place),
        !torrent.progress.is_less(of_integer(1)),
        torrent.completion_on > 0,
        torrent.state@ != "moving"@,
    ensures
        is_due(torrent, rules, now) <==> rules[place].min_days_since_completion == 0
            || torrent.completion_on + rules[place].min_days_since_completion * 86_400 <= now,
        components(age_destination(torrent, rules)) == components(rules[place].target_path@)
            + components(normal_path(torrent.save_path@)).skip(
            components(rules[place].source_path@).len() as int,
        ),
        normal_path(torrent.save_path@) == rules[place].source_path@ ==> age_destination(
            torrent,
            rules,
        ) == rules[place].target_path@,
        skip_reason(torrent, rules, now) != Some(SkipReason::AlreadyThere),
{
    law_longest_source_applies(raw_rules, rules, normal_path(torrent.save_path@));
    assert(is_compiled(raw_rules[place], place, rules[place]));
    assert(rule_fault(raw_rules, place) is None);
    assert(holds_path(rules[place], normal_path(torrent.save_path@)));
    law_rules_always_lead_elsewhere(raw_rules, place, rules[place], torrent.save_path@);
    law_when_a_torrent_is_due(torrent, rules, now);
}

/// Why a torrent is left where it is: the first thing that is wanting.
pub proof fn law_why_a_torrent_stays(torrent: TorrentInfo, rules: Seq<Rule>, now: u64)
    ensures
        ({
            let reason = skip_reason(torrent, rules, now);
            let incomplete = torrent.progress.is_less(of_integer(1));
            let undated = torrent.completion_on <= 0;
            let moving = torrent.state@ == "moving"@;
            let place = matching_rule(rules, normal_path(torrent.save_path@));
            &&& reason == Some(SkipReason::Incomplete) <==> incomplete
            &&& reason == Some(SkipReason::NoCompletionTime) <==> !incomplete && undated
            &&& reason == Some(SkipReason::AlreadyMoving) <==> !incomplete && !undated && moving
            &&& reason == Some(SkipReason::NoRule) <==> !incomplete && !undated && !moving && place
                is None
            &&& (reason matches Some(SkipReason::TooYoung { .. })) <==> !incomplete && !undated
                && !moving && (place matches Some(at) && rules[at].min_days_since_completion > 0
                && torrent.completion_on + rules[at].min_days_since_completion * 86_400 > now)
            &&& reason matches Some(SkipReason::TooYoung { age_days, min_days }) ==> {
                &&& min_days == rules[place->0].min_days_since_completion
                &&& torrent.completion_on <= now ==> age_days * 86_400 <= now
                    - torrent.completion_on < (age_days + 1) * 86_400
                &&& torrent.completion_on > now ==> age_days == 0
            }
        }),
{
}

/// A torrent is moved to where the first torrent in the list goes that is due and is the torrent
/// itself or shares its content; it stays, for a reason of its own, if there is none.
pub proof fn law_first_due_torrent_leads_its_group(
    torrents: Seq<TorrentInfo>,
    rules: Seq<Rule>,
    now: u64,
    at: int,
    step: AgeStep,
)
    requires
        0 <= at < torrents.len(),
        is_age_step(torrents, rules, now, at, step),
    ensures
        step matches AgeStep::Move { leader, destination } ==> {
            &&& leader < torrents.len()
            &&& leader == at || (torrents[leader as int].content_path@ == torrents[at].content_path@
                && torrents[at].content_path@ != Seq::<char>::empty())
            &&& is_due(torrents[leader as int], rules, now)
            &&& destination@ == age_destination(torrents[leader as int], rules)
            &&& forall|k: int|
                0 <= k < leader && (k == at || ((#[trigger] torrents[k]).content_path@
                    == torrents[at].content_path@ && torrents[at].content_path@
                    != Seq::<char>::empty())) ==> !is_due(torrents[k], rules, now)
        },
        step matches AgeStep::Skip(reason) ==> {
            &&& skip_reason(torrents[at], rules, now) == Some(reason)
            &&& forall|k: int|
                0 <= k < torrents.len() && (k == at || ((#[trigger] torrents[k]).content_path@
                    == torrents[at].content_path@ && torrents[at].content_path@
                    != Seq::<char>::empty())) ==> !is_due(torrents[k], rules, now)
        },
{
    let own = torrents[at].content_path@;
    if own.len() == 0 {
        assert(own =~= Seq::<char>::empty());
    }
    assert forall|k: int|
        0 <= k < torrents.len() && (k == at || ((#[trigger] torrents[k]).content_path@ == own && own
            != Seq::<char>::empty())) implies in_group(torrents, at, k) by {}
}

} // verus!
