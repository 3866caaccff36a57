//! Which torrents are moved when a filesystem runs out of free space: how much is missing, which
//! groups of torrents can be moved, how many of them are needed, and when their moves are done.

use crate::age::{same_content, shares_content, TorrentInfo};
use crate::number::{of_integer, Number};
use crate::order::{
    integers, lemma_order_exists, order, order_places, places_of, precedes,
};
use crate::path::{components, normal_path, normalize_path, same_path, starts_with};
use crate::rules::{
    holds_path, is_compiled, law_longest_source_applies, law_most_specific_rule_wins,
    law_rules_always_lead_elsewhere, match_rule, matching_rule, remap_save_path, remapped,
    rule_fault, Rule, RuleConfig,
};
use crate::setup::are_rules;
use crate::text::same_text;
use vstd::prelude::*;

verus! {

/// How much room a filesystem has.
#[derive(Clone, Copy, PartialEq, Eq, Structural, Debug)]
pub struct FilesystemUsage {
    pub total_bytes: u64,
    /// What an unprivileged user can still write.
    pub available_bytes: u64,
}

/// A product, or the greatest machine number if the product exceeds it.
pub open spec fn saturated_product(left: u64, right: u64) -> int {
    if left * right <= u64::MAX {
        left * right
    } else {
        u64::MAX as int
    }
}

fn saturating_product(left: u64, right: u64) -> (product: u64)
    ensures
        product == saturated_product(left, right),
{
    match left.checked_mul(right) {
        Some(product) => product,
        None => u64::MAX,
    }
}

/// The usage of a filesystem that counts its room in blocks.
pub fn usage_of_blocks(block_size: u64, total_blocks: u64, available_blocks: u64) -> (usage:
    FilesystemUsage)
    ensures
        usage.total_bytes == saturated_product(total_blocks, block_size),
        usage.available_bytes == saturated_product(available_blocks, block_size),
{
    FilesystemUsage {
        total_bytes: saturating_product(total_blocks, block_size),
        available_bytes: saturating_product(available_blocks, block_size),
    }
}

/// The share of a filesystem that is free, in per cent.
pub open spec fn percent_free(usage: FilesystemUsage) -> Number {
    if usage.total_bytes == 0 {
        of_integer(0)
    } else {
        of_integer(usage.available_bytes as int).quotient(
            of_integer(usage.total_bytes as int),
        ).product(of_integer(100))
    }
}

/// The share of a filesystem that is free, in per cent; none of an empty one.
pub fn free_space_percent(usage: FilesystemUsage) -> (percent: Number)
    ensures
        percent == percent_free(usage),
{
    if usage.total_bytes == 0 {
        return Number::from_natural(0);
    }
    Number::from_natural(usage.available_bytes).over(
        Number::from_natural(usage.total_bytes),
    ).times(Number::from_natural(100))
}

/// Whether at least the given share of a filesystem is free.
pub open spec fn has_free_space(usage: FilesystemUsage, least: Number) -> bool {
    least.is_less(percent_free(usage)) || least.is_same(percent_free(usage))
}

/// Whether at least the given share of a filesystem is free.
pub fn enough_free_space(usage: FilesystemUsage, least: Number) -> (enough: bool)
    ensures
        enough == has_free_space(usage, least),
{
    let percent = free_space_percent(usage);
    least.less(percent) || least.same(percent)
}

/// How many bytes are missing before the given share of a filesystem is free.
pub open spec fn missing_bytes(usage: FilesystemUsage, least: Number) -> int {
    let target = of_integer(usage.total_bytes as int).product(
        least.quotient(of_integer(100)),
    ).ceiling_within(u64::MAX as nat);
    if target >= usage.available_bytes {
        target - usage.available_bytes
    } else {
        0
    }
}

/// How many bytes are missing before the given share of a filesystem is free.
pub fn free_space_deficit_bytes(usage: FilesystemUsage, min_free_space_percent: Number) -> (deficit:
    u64)
    ensures
        deficit == missing_bytes(usage, min_free_space_percent),
{
    let target: u64 = Number::from_natural(usage.total_bytes).times(
        min_free_space_percent.over(Number::from_natural(100)),
    ).ceiling(u64::MAX);
    if target >= usage.available_bytes {
        target - usage.available_bytes
    } else {
        0
    }
}

/// Whether any rule asks for free space.
pub fn ensure_low_space_rules(rules: &Vec<Rule>) -> (any: bool)
    ensures
        any == exists|i: int|
            0 <= i < rules@.len() && (#[trigger] rules@[i]).min_free_space_percent is Some,
{
    let mut i: usize = 0;
    while i < rules.len()
        invariant
            i <= rules@.len(),
            forall|j: int| 0 <= j < i ==> (#[trigger] rules@[j]).min_free_space_percent is None,
        decreases rules.len() - i,
    {
        if rules[i].min_free_space_percent.is_some() {
            return true;
        }
        i = i + 1;
    }
    false
}

/// A torrent that is to be moved.
pub struct PlannedMove {
    pub hash: String,
    pub name: String,
    /// Where the torrent lies, in normal form.
    pub save_path: String,
    pub destination: String,
    pub size: u64,
    pub auto_tmm: bool,
}

/// A group of torrents that can be moved, named after the one that was completed first.
pub struct MoveCandidate {
    pub hash: String,
    pub name: String,
    pub save_path: String,
    pub destination: String,
    pub completion_on: u64,
    /// How many bytes the group takes.
    pub size: u64,
    pub auto_tmm: bool,
    /// The other torrents that share the content.
    pub siblings: Vec<PlannedMove>,
}

/// A move that qBittorrent has accepted.
pub struct QueuedMove {
    pub hash: String,
    pub name: String,
    pub destination: String,
}

/// What a planned move says.
pub struct MoveView {
    pub hash: Seq<char>,
    pub name: Seq<char>,
    pub save_path: Seq<char>,
    pub destination: Seq<char>,
    pub size: int,
    pub auto_tmm: bool,
}

impl View for PlannedMove {
    type V = MoveView;

    open spec fn view(&self) -> MoveView {
        MoveView {
            hash: self.hash@,
            name: self.name@,
            save_path: self.save_path@,
            destination: self.destination@,
            size: self.size as int,
            auto_tmm: self.auto_tmm,
        }
    }
}

/// What a list of planned moves says.
pub open spec fn move_views(moves: Seq<PlannedMove>) -> Seq<MoveView> {
    Seq::new(moves.len(), |i: int| moves[i]@)
}

/// The move of a torrent to a destination.
pub open spec fn move_of(torrent: TorrentInfo, destination: Seq<char>) -> MoveView {
    MoveView {
        hash: torrent.hash@,
        name: torrent.name@,
        save_path: normal_path(torrent.save_path@),
        destination,
        size: torrent.size as int,
        auto_tmm: torrent.auto_tmm,
    }
}

impl MoveCandidate {
    /// The move of the torrent that the group is named after.
    pub open spec fn lead(self) -> MoveView {
        MoveView {
            hash: self.hash@,
            name: self.name@,
            save_path: self.save_path@,
            destination: self.destination@,
            size: self.size as int,
            auto_tmm: self.auto_tmm,
        }
    }

    /// The moves of all torrents of the group.
    pub open spec fn moves(self) -> Seq<MoveView> {
        seq![self.lead()] + move_views(self.siblings@)
    }
}

/// Where a rule leads a torrent.
pub open spec fn rule_destination(torrent: TorrentInfo, rule: Rule) -> Seq<char> {
    remapped(normal_path(torrent.save_path@), rule)
}

/// Whether a torrent is complete, stays where it is, and lies where a rule applies.
pub open spec fn is_under(torrent: TorrentInfo, rules: Seq<Rule>, rule: Rule) -> bool {
    let place = matching_rule(rules, normal_path(torrent.save_path@));
    &&& !torrent.progress.is_less(of_integer(1))
    &&& torrent.completion_on > 0
    &&& torrent.state@ != "moving"@
    &&& place is Some
    &&& rules[place->0].index == rule.index
}

/// Whether a rule applies to a torrent that its source does not hold. No torrent is such where
/// every rule has an index of its own.
pub open spec fn is_stray(torrent: TorrentInfo, rules: Seq<Rule>, rule: Rule) -> bool {
    is_under(torrent, rules, rule) && !starts_with(
        normal_path(torrent.save_path@),
        rule.source_path@,
    )
}

/// Whether a rule can free space by moving a torrent.
pub open spec fn is_movable(torrent: TorrentInfo, rules: Seq<Rule>, rule: Rule) -> bool {
    &&& is_under(torrent, rules, rule)
    &&& starts_with(normal_path(torrent.save_path@), rule.source_path@)
    &&& components(rule_destination(torrent, rule)) != components(
        normal_path(torrent.save_path@),
    )
    &&& torrent.size > 0
}

/// The torrent at `at` can be moved, and of those of its group that can be, it was completed first;
/// of several completed at once, it is listed first.
pub open spec fn is_group_lead(
    torrents: Seq<TorrentInfo>,
    rules: Seq<Rule>,
    rule: Rule,
    at: int,
) -> bool {
    &&& is_movable(torrents[at], rules, rule)
    &&& forall|k: int|
        0 <= k < torrents.len() && k != at && is_movable(#[trigger] torrents[k], rules, rule)
            && shares_content(torrents[at], torrents[k]) ==> {
            ||| torrents[at].completion_on < torrents[k].completion_on
            ||| torrents[at].completion_on == torrents[k].completion_on && at < k
        }
}

/// The places, below `count`, of the torrents that lead their groups.
pub open spec fn lead_places(
    torrents: Seq<TorrentInfo>,
    rules: Seq<Rule>,
    rule: Rule,
    count: nat,
) -> Seq<int>
    decreases count,
{
    if count == 0 {
        Seq::empty()
    } else {
        let before = lead_places(torrents, rules, rule, (count - 1) as nat);
        if is_group_lead(torrents, rules, rule, count - 1) {
            before.push(count - 1)
        } else {
            before
        }
    }
}

/// When the torrents at the given places were completed.
pub open spec fn completions(torrents: Seq<TorrentInfo>, places: Seq<int>) -> Seq<int> {
    Seq::new(places.len(), |i: int| torrents[places[i]].completion_on as int)
}

/// The places of the torrents that lead their groups, those completed first in front.
pub open spec fn candidate_places(
    torrents: Seq<TorrentInfo>,
    rules: Seq<Rule>,
    rule: Rule,
) -> Seq<int> {
    let leads = lead_places(torrents, rules, rule, torrents.len());
    Seq::new(leads.len(), |i: int| leads[order(completions(torrents, leads))[i]])
}

/// The moves, to one destination, of the torrents before `count` that share the content of the one
/// at `at`.
pub open spec fn sibling_moves(
    torrents: Seq<TorrentInfo>,
    at: int,
    destination: Seq<char>,
    count: nat,
) -> Seq<MoveView>
    decreases count,
{
    if count == 0 {
        Seq::empty()
    } else {
        let before = sibling_moves(torrents, at, destination, (count - 1) as nat);
        if count - 1 != at && shares_content(torrents[at], torrents[count - 1]) {
            before.push(move_of(torrents[count - 1], destination))
        } else {
            before
        }
    }
}

/// The candidate that stands for the group of the torrent at `at`.
pub open spec fn is_candidate(
    torrents: Seq<TorrentInfo>,
    rule: Rule,
    at: int,
    candidate: MoveCandidate,
) -> bool {
    let destination = rule_destination(torrents[at], rule);
    &&& candidate.lead() == move_of(torrents[at], destination)
    &&& candidate.completion_on == torrents[at].completion_on
    &&& move_views(candidate.siblings@) == sibling_moves(
        torrents,
        at,
        destination,
        torrents.len(),
    )
}

fn under(torrent: &TorrentInfo, rules: &Vec<Rule>, rule: &Rule) -> (under: bool)
    ensures
        under == is_under(*torrent, rules@, *rule),
{
    if torrent.progress.less(Number::from_natural(1)) || torrent.completion_on <= 0 || same_text(
        torrent.state.as_str(),
        "moving",
    ) {
        return false;
    }
    match match_rule(rules, normalize_path(torrent.save_path.as_str()).as_str()) {
        None => false,
        Some(matched) => matched.index == rule.index,
    }
}

/// Where a rule leads a torrent that it can move; `Err` if the rule applies to a torrent that its
/// source does not hold.
fn movable(torrent: &TorrentInfo, rules: &Vec<Rule>, rule: &Rule) -> (movable: Result<
    Option<String>,
    (),
>)
    ensures
        movable is Err == is_stray(*torrent, rules@, *rule),
        movable matches Ok(found) ==> found is Some == is_movable(*torrent, rules@, *rule),
        movable matches Ok(Some(destination)) ==> destination@ == rule_destination(*torrent, *rule),
{
    if !under(torrent, rules, rule) {
        return Ok(None);
    }
    let save_path = normalize_path(torrent.save_path.as_str());
    match remap_save_path(save_path.as_str(), rule) {
        None => Err(()),
        Some(destination) => {
            if same_path(destination.as_str(), save_path.as_str()) || torrent.size == 0 {
                Ok(None)
            } else {
                Ok(Some(destination))
            }
        },
    }
}

/// What each torrent can be moved to, or the place of the first that its rule does not hold.
fn destinations(torrents: &Vec<TorrentInfo>, rules: &Vec<Rule>, rule: &Rule) -> (found: Result<
    Vec<Option<String>>,
    usize,
>)
    ensures
        match found {
            Ok(destinations) => {
                &&& destinations@.len() == torrents@.len()
                &&& forall|i: int|
                    0 <= i < torrents@.len() ==> !is_stray(#[trigger] torrents@[i], rules@, *rule)
                &&& forall|i: int|
                    0 <= i < torrents@.len() ==> (match #[trigger] destinations@[i] {
                        Some(destination) => is_movable(torrents@[i], rules@, *rule)
                            && destination@ == rule_destination(torrents@[i], *rule),
                        None => !is_movable(torrents@[i], rules@, *rule),
                    })
            },
            Err(at) => {
                &&& at < torrents@.len()
                &&& is_stray(torrents@[at as int], rules@, *rule)
                &&& forall|i: int|
                    0 <= i < at ==> !is_stray(#[trigger] torrents@[i], rules@, *rule)
            },
        },
{
    let mut destinations: Vec<Option<String>> = Vec::new();
    let mut i: usize = 0;
    while i < torrents.len()
        invariant
            i <= torrents@.len(),
            destinations@.len() == i,
            forall|j: int| 0 <= j < i ==> !is_stray(#[trigger] torrents@[j], rules@, *rule),
            forall|j: int|
                0 <= j < i ==> (match #[trigger] destinations@[j] {
                    Some(destination) => is_movable(torrents@[j], rules@, *rule)
                        && destination@ == rule_destination(torrents@[j], *rule),
                    None => !is_movable(torrents@[j], rules@, *rule),
                }),
        decreases torrents.len() - i,
    {
        match movable(&torrents[i], rules, rule) {
            Ok(destination) => destinations.push(destination),
            Err(_) => {
                return Err(i);
            },
        }
        i = i + 1;
    }
    Ok(destinations)
}

fn group_lead(
    torrents: &Vec<TorrentInfo>,
    rules: &Vec<Rule>,
    rule: &Rule,
    destinations: &Vec<Option<String>>,
    at: usize,
) -> (lead: bool)
    requires
        at < torrents@.len(),
        destinations@.len() == torrents@.len(),
        forall|i: int|
            0 <= i < torrents@.len() ==> (#[trigger] destinations@[i] is Some) == is_movable(
                torrents@[i],
                rules@,
                *rule,
            ),
    ensures
        lead == is_group_lead(torrents@, rules@, *rule, at as int),
{
    if destinations[at].is_none() {
        return false;
    }
    let mut k: usize = 0;
    while k < torrents.len()
        invariant
            k <= torrents@.len(),
            at < torrents@.len(),
            destinations@.len() == torrents@.len(),
            forall|i: int|
                0 <= i < torrents@.len() ==> (#[trigger] destinations@[i] is Some) == is_movable(
                    torrents@[i],
                    rules@,
                    *rule,
                ),
            forall|i: int|
                0 <= i < k && i != at && is_movable(#[trigger] torrents@[i], rules@, *rule)
                    && shares_content(torrents@[at as int], torrents@[i]) ==> {
                    ||| torrents@[at as int].completion_on < torrents@[i].completion_on
                    ||| torrents@[at as int].completion_on == torrents@[i].completion_on && at < i
                },
        decreases torrents.len() - k,
    {
        if k != at && destinations[k].is_some() && same_content(&torrents[at], &torrents[k]) {
            let mine: i64 = torrents[at].completion_on;
            let other: i64 = torrents[k].completion_on;
            if other < mine || (other == mine && k < at) {
                assert(is_movable(torrents@[k as int], rules@, *rule));
                return false;
            }
        }
        k = k + 1;
    }
    true
}

fn planned(torrent: &TorrentInfo, destination: &str) -> (planned: PlannedMove)
    ensures
        planned@ == move_of(*torrent, destination@),
{
    PlannedMove {
        hash: torrent.hash.clone(),
        name: torrent.name.clone(),
        save_path: normalize_path(torrent.save_path.as_str()),
        destination: String::from_str(destination),
        size: torrent.size,
        auto_tmm: torrent.auto_tmm,
    }
}

fn siblings(torrents: &Vec<TorrentInfo>, at: usize, destination: &str) -> (moves: Vec<PlannedMove>)
    requires
        at < torrents@.len(),
    ensures
        move_views(moves@) == sibling_moves(torrents@, at as int, destination@, torrents@.len()),
{
    let mut moves: Vec<PlannedMove> = Vec::new();
    let mut k: usize = 0;
    assert(move_views(moves@) =~= Seq::<MoveView>::empty());
    while k < torrents.len()
        invariant
            k <= torrents@.len(),
            at < torrents@.len(),
            move_views(moves@) == sibling_moves(torrents@, at as int, destination@, k as nat),
        decreases torrents.len() - k,
    {
        if k != at && same_content(&torrents[at], &torrents[k]) {
            let ghost before = moves@;
            let next = planned(&torrents[k], destination);
            moves.push(next);
            assert(move_views(moves@) =~= move_views(before).push(next@));
        }
        k = k + 1;
    }
    moves
}

/// The groups of torrents that a rule can move, those completed first in front. A torrent to which
/// the rule applies but which its source does not hold is turned down, by its place.
pub fn collect_low_space_candidates(
    torrents: &Vec<TorrentInfo>,
    rules: &Vec<Rule>,
    current_rule: &Rule,
) -> (collected: Result<Vec<MoveCandidate>, usize>)
    ensures
        match collected {
            Ok(candidates) => {
                let places = candidate_places(torrents@, rules@, *current_rule);
                &&& forall|i: int|
                    0 <= i < torrents@.len() ==> !is_stray(
                        #[trigger] torrents@[i],
                        rules@,
                        *current_rule,
                    )
                &&& candidates@.len() == places.len()
                &&& forall|i: int|
                    0 <= i < places.len() ==> is_candidate(
                        torrents@,
                        *current_rule,
                        places[i],
                        #[trigger] candidates@[i],
                    )
            },
            Err(at) => {
                &&& at < torrents@.len()
                &&& is_stray(torrents@[at as int], rules@, *current_rule)
                &&& forall|i: int|
                    0 <= i < at ==> !is_stray(#[trigger] torrents@[i], rules@, *current_rule)
            },
        },
{
    let destinations = match destinations(torrents, rules, current_rule) {
        Ok(destinations) => destinations,
        Err(at) => {
            return Err(at);
        },
    };
    let mut leads: Vec<usize> = Vec::new();
    let mut keys: Vec<i128> = Vec::new();
    let mut at: usize = 0;
    assert(places_of(leads@) =~= Seq::<int>::empty());
    while at < torrents.len()
        invariant
            at <= torrents@.len(),
            destinations@.len() == torrents@.len(),
            forall|i: int|
                0 <= i < torrents@.len() ==> (match #[trigger] destinations@[i] {
                    Some(destination) => is_movable(torrents@[i], rules@, *current_rule)
                        && destination@ == rule_destination(torrents@[i], *current_rule),
                    None => !is_movable(torrents@[i], rules@, *current_rule),
                }),
            places_of(leads@) == lead_places(torrents@, rules@, *current_rule, at as nat),
            keys@.len() == leads@.len(),
            forall|i: int|
                0 <= i < leads@.len() ==> #[trigger] leads@[i] < at && is_movable(
                    torrents@[leads@[i] as int],
                    rules@,
                    *current_rule,
                ) && keys@[i] == torrents@[leads@[i] as int].completion_on,
        decreases torrents.len() - at,
    {
        if group_lead(torrents, rules, current_rule, &destinations, at) {
            let ghost before = leads@;
            leads.push(at);
            keys.push(torrents[at].completion_on as i128);
            assert(places_of(leads@) =~= places_of(before).push(at as int));
        }
        at = at + 1;
    }
    let places = order_places(&keys);
    let ghost spots = lead_places(torrents@, rules@, *current_rule, torrents@.len());
    proof {
        assert(places_of(leads@) == spots);
        assert forall|i: int| 0 <= i < spots.len() implies spots[i] == leads@[i] by {}
        assert(integers(keys@) =~= completions(torrents@, spots));
        assert(places_of(places@) == order(completions(torrents@, spots)));
        assert forall|j: int| 0 <= j < places@.len() implies #[trigger] places@[j]
            < leads@.len() by {
            assert(places_of(places@)[j] == places@[j]);
        }
    }
    let mut candidates: Vec<MoveCandidate> = Vec::new();
    let mut i: usize = 0;
    while i < places.len()
        invariant
            i <= places@.len(),
            places@.len() == leads@.len(),
            spots.len() == leads@.len(),
            places_of(places@) == order(completions(torrents@, spots)),
            spots == lead_places(torrents@, rules@, *current_rule, torrents@.len()),
            forall|j: int| 0 <= j < leads@.len() ==> spots[j] == #[trigger] leads@[j],
            forall|j: int| 0 <= j < places@.len() ==> #[trigger] places@[j] < leads@.len(),
            forall|j: int|
                0 <= j < leads@.len() ==> #[trigger] leads@[j] < torrents@.len() && is_movable(
                    torrents@[leads@[j] as int],
                    rules@,
                    *current_rule,
                ),
            destinations@.len() == torrents@.len(),
            forall|j: int|
                0 <= j < torrents@.len() ==> (match #[trigger] destinations@[j] {
                    Some(destination) => is_movable(torrents@[j], rules@, *current_rule)
                        && destination@ == rule_destination(torrents@[j], *current_rule),
                    None => !is_movable(torrents@[j], rules@, *current_rule),
                }),
            candidates@.len() == i,
            forall|j: int|
                0 <= j < i ==> is_candidate(
                    torrents@,
                    *current_rule,
                    leads@[places@[j] as int] as int,
                    #[trigger] candidates@[j],
                ),
        decreases places.len() - i,
    {
        let lead: usize = leads[places[i]];
        assert(is_movable(torrents@[lead as int], rules@, *current_rule));
        if let Some(destination) = &destinations[lead] {
            let torrent = &torrents[lead];
            let candidate = MoveCandidate {
                hash: torrent.hash.clone(),
                name: torrent.name.clone(),
                save_path: normalize_path(torrent.save_path.as_str()),
                destination: destination.clone(),
                completion_on: torrent.completion_on as u64,
                size: torrent.size,
                auto_tmm: torrent.auto_tmm,
                siblings: siblings(torrents, lead, destination.as_str()),
            };
            candidates.push(candidate);
        }
        i = i + 1;
    }
    proof {
        let wanted = candidate_places(torrents@, rules@, *current_rule);
        assert forall|j: int| 0 <= j < wanted.len() implies is_candidate(
            torrents@,
            *current_rule,
            wanted[j],
            #[trigger] candidates@[j],
        ) by {
            assert(places_of(places@)[j] == places@[j]);
            assert(leads@[places@[j] as int] == spots[places@[j] as int]);
        }
    }
    Ok(candidates)
}

/// How many bytes a number of groups take together.
pub open spec fn total_size(candidates: Seq<MoveCandidate>, count: nat) -> nat
    decreases count,
{
    if count == 0 {
        0
    } else {
        total_size(candidates, (count - 1) as nat) + candidates[count - 1].size as nat
    }
}

/// The least number of groups, taken from the front, that frees the required bytes; all of them if
/// they do not suffice.
pub open spec fn is_batch(candidates: Seq<MoveCandidate>, required: u64, count: nat) -> bool {
    &&& count <= candidates.len()
    &&& forall|fewer: nat| fewer < count ==> #[trigger] total_size(candidates, fewer) < required
    &&& count < candidates.len() ==> total_size(candidates, count) >= required
}

/// The groups to move, from the front, until they free the required bytes.
pub fn select_low_space_batch(candidates: &Vec<MoveCandidate>, required_bytes: u64) -> (selected:
    Vec<&MoveCandidate>)
    ensures
        is_batch(candidates@, required_bytes, selected@.len()),
        forall|i: int| 0 <= i < selected@.len() ==> *#[trigger] selected@[i] == candidates@[i],
{
    let mut selected: Vec<&MoveCandidate> = Vec::new();
    let mut reclaimed: u64 = 0;
    let mut i: usize = 0;
    while i < candidates.len() && reclaimed < required_bytes
        invariant
            i <= candidates@.len(),
            selected@.len() == i,
            forall|j: int| 0 <= j < i ==> *#[trigger] selected@[j] == candidates@[j],
            forall|fewer: nat|
                fewer < i ==> #[trigger] total_size(candidates@, fewer) < required_bytes,
            if total_size(candidates@, i as nat) <= u64::MAX {
                reclaimed == total_size(candidates@, i as nat)
            } else {
                reclaimed == u64::MAX
            },
        decreases candidates.len() - i,
    {
        selected.push(&candidates[i]);
        reclaimed = reclaimed.saturating_add(candidates[i].size);
        i = i + 1;
    }
    selected
}

/// The moves of all torrents of the first `count` groups.
pub open spec fn batch_moves(batch: Seq<&MoveCandidate>, count: nat) -> Seq<MoveView>
    decreases count,
{
    if count == 0 {
        Seq::empty()
    } else {
        batch_moves(batch, (count - 1) as nat) + batch[count - 1].moves()
    }
}

fn copy_move(planned: &PlannedMove) -> (copy: PlannedMove)
    ensures
        copy@ == planned@,
{
    PlannedMove {
        hash: planned.hash.clone(),
        name: planned.name.clone(),
        save_path: planned.save_path.clone(),
        destination: planned.destination.clone(),
        size: planned.size,
        auto_tmm: planned.auto_tmm,
    }
}

/// The moves of all torrents of a batch of groups: of each group the torrent it is named after, then
/// its siblings.
pub fn plan_batch(batch: &Vec<&MoveCandidate>) -> (moves: Vec<PlannedMove>)
    ensures
        move_views(moves@) == batch_moves(batch@, batch@.len()),
{
    let mut moves: Vec<PlannedMove> = Vec::new();
    let mut i: usize = 0;
    assert(move_views(moves@) =~= Seq::<MoveView>::empty());
    while i < batch.len()
        invariant
            i <= batch@.len(),
            move_views(moves@) == batch_moves(batch@, i as nat),
        decreases batch.len() - i,
    {
        let candidate = batch[i];
        let lead = PlannedMove {
            hash: candidate.hash.clone(),
            name: candidate.name.clone(),
            save_path: candidate.save_path.clone(),
            destination: candidate.destination.clone(),
            size: candidate.size,
            auto_tmm: candidate.auto_tmm,
        };
        let ghost before = moves@;
        moves.push(lead);
        assert(move_views(moves@) =~= move_views(before) + seq![candidate.lead()]);
        let mut k: usize = 0;
        assert(move_views(candidate.siblings@).take(0) =~= Seq::<MoveView>::empty());
        while k < candidate.siblings.len()
            invariant
                k <= candidate.siblings@.len(),
                move_views(moves@) == move_views(before) + seq![candidate.lead()] + move_views(
                    candidate.siblings@,
                ).take(k as int),
            decreases candidate.siblings.len() - k,
        {
            let ghost sofar = moves@;
            let next = copy_move(&candidate.siblings[k]);
            moves.push(next);
            proof {
                let all = move_views(candidate.siblings@);
                assert(all.take(k + 1) =~= all.take(k as int).push(all[k as int]));
                assert(move_views(moves@) =~= move_views(sofar).push(next@));
                assert(move_views(moves@) =~= move_views(before) + seq![candidate.lead()]
                    + all.take(k + 1));
            }
            k = k + 1;
        }
        proof {
            let all = move_views(candidate.siblings@);
            assert(all.take(all.len() as int) =~= all);
            assert(move_views(moves@) =~= move_views(before) + candidate.moves());
        }
        i = i + 1;
    }
    moves
}

/// The place of the last torrent with the given hash among the first `count`.
pub open spec fn place_of_hash(torrents: Seq<TorrentInfo>, hash: Seq<char>, count: nat) -> Option<
    int,
>
    decreases count,
{
    if count == 0 {
        None
    } else if torrents[count - 1].hash@ == hash {
        Some(count - 1)
    } else {
        place_of_hash(torrents, hash, (count - 1) as nat)
    }
}

/// Whether an accepted move is still to be finished. That of a torrent which is gone is not.
pub open spec fn is_pending(torrents: Seq<TorrentInfo>, queued: QueuedMove) -> bool {
    match place_of_hash(torrents, queued.hash@, torrents.len()) {
        None => false,
        Some(place) => torrents[place].state@ == "moving"@ || components(
            normal_path(torrents[place].save_path@),
        ) != components(queued.destination@),
    }
}

/// How many of the first `count` accepted moves are still to be finished.
pub open spec fn pending_count(
    torrents: Seq<TorrentInfo>,
    queued: Seq<QueuedMove>,
    count: nat,
) -> nat
    decreases count,
{
    if count == 0 {
        0
    } else {
        pending_count(torrents, queued, (count - 1) as nat) + if is_pending(
            torrents,
            queued[count - 1],
        ) {
            1nat
        } else {
            0nat
        }
    }
}

fn find_hash(torrents: &Vec<TorrentInfo>, hash: &str) -> (place: Option<usize>)
    ensures
        match place {
            Some(at) => at < torrents@.len() && place_of_hash(torrents@, hash@, torrents@.len())
                == Some(at as int),
            None => place_of_hash(torrents@, hash@, torrents@.len()) is None,
        },
{
    let mut count: usize = torrents.len();
    while count > 0
        invariant
            count <= torrents@.len(),
            place_of_hash(torrents@, hash@, count as nat) == place_of_hash(
                torrents@,
                hash@,
                torrents@.len(),
            ),
        decreases count,
    {
        if same_text(torrents[count - 1].hash.as_str(), hash) {
            return Some(count - 1);
        }
        count = count - 1;
    }
    None
}

/// How many accepted moves are still to be finished, going by a listing of their torrents.
pub fn count_pending_moves(torrents: &Vec<TorrentInfo>, queued: &Vec<QueuedMove>) -> (pending:
    usize)
    ensures
        pending == pending_count(torrents@, queued@, queued@.len()),
{
    let mut pending: usize = 0;
    let mut i: usize = 0;
    while i < queued.len()
        invariant
            i <= queued@.len(),
            pending <= i,
            pending == pending_count(torrents@, queued@, i as nat),
        decreases queued.len() - i,
    {
        let queued_move = &queued[i];
        match find_hash(torrents, queued_move.hash.as_str()) {
            None => {},
            Some(place) => {
                let torrent = &torrents[place];
                let current_path = normalize_path(torrent.save_path.as_str());
                if same_text(torrent.state.as_str(), "moving") || !same_path(
                    current_path.as_str(),
                    queued_move.destination.as_str(),
                ) {
                    pending = pending + 1;
                }
            },
        }
        i = i + 1;
    }
    pending
}

/// The moves of all torrents of the group that the one at `at` leads.
pub open spec fn group_moves(torrents: Seq<TorrentInfo>, rule: Rule, at: int) -> Seq<MoveView> {
    let destination = rule_destination(torrents[at], rule);
    seq![move_of(torrents[at], destination)] + sibling_moves(
        torrents,
        at,
        destination,
        torrents.len(),
    )
}

/// The moves of all torrents of the first `count` groups.
pub open spec fn moves_of_groups(
    torrents: Seq<TorrentInfo>,
    rule: Rule,
    places: Seq<int>,
    count: nat,
) -> Seq<MoveView>
    decreases count,
{
    if count == 0 {
        Seq::empty()
    } else {
        moves_of_groups(torrents, rule, places, (count - 1) as nat) + group_moves(
            torrents,
            rule,
            places[count - 1],
        )
    }
}

/// Where the groups end, going on from a place, that free the required bytes.
pub open spec fn batch_end(
    torrents: Seq<TorrentInfo>,
    places: Seq<int>,
    required: int,
    from: nat,
) -> nat
    decreases places.len() - from,
{
    if required <= 0 || from >= places.len() {
        from
    } else {
        batch_end(
            torrents,
            places,
            required - torrents[places[from as int]].size,
            from + 1,
        )
    }
}

/// The moves that a rule makes to free the required bytes: the groups completed first, as many as
/// are needed, with all their torrents.
pub open spec fn low_space_moves(
    torrents: Seq<TorrentInfo>,
    rules: Seq<Rule>,
    rule: Rule,
    required: u64,
) -> Seq<MoveView> {
    let places = candidate_places(torrents, rules, rule);
    moves_of_groups(torrents, rule, places, batch_end(torrents, places, required as int, 0))
}

proof fn lemma_batch_end(
    torrents: Seq<TorrentInfo>,
    places: Seq<int>,
    candidates: Seq<MoveCandidate>,
    required: u64,
    count: nat,
    from: nat,
)
    requires
        candidates.len() == places.len(),
        forall|i: int|
            0 <= i < places.len() ==> (#[trigger] candidates[i]).size == torrents[places[i]].size,
        is_batch(candidates, required, count),
        from <= count,
    ensures
        batch_end(torrents, places, required - total_size(candidates, from), from) == count,
    decreases count - from,
{
    if from < count {
        assert(total_size(candidates, from) < required);
        assert(candidates[from as int].size == torrents[places[from as int]].size);
        lemma_batch_end(torrents, places, candidates, required, count, from + 1);
    }
}

proof fn lemma_batch_moves(
    torrents: Seq<TorrentInfo>,
    rule: Rule,
    places: Seq<int>,
    batch: Seq<&MoveCandidate>,
    count: nat,
)
    requires
        count <= batch.len() <= places.len(),
        forall|i: int|
            0 <= i < batch.len() ==> is_candidate(torrents, rule, places[i], *#[trigger] batch[i]),
    ensures
        batch_moves(batch, count) == moves_of_groups(torrents, rule, places, count),
    decreases count,
{
    if count > 0 {
        lemma_batch_moves(torrents, rule, places, batch, (count - 1) as nat);
        assert(is_candidate(torrents, rule, places[count - 1], *batch[count - 1]));
        assert(batch[count - 1].moves() =~= group_moves(torrents, rule, places[count - 1]));
    }
}

/// The moves that a rule makes to free the required bytes. A torrent to which the rule applies but
/// which its source does not hold is turned down, by its place.
pub fn plan_low_space_moves(
    torrents: &Vec<TorrentInfo>,
    rules: &Vec<Rule>,
    rule: &Rule,
    required_bytes: u64,
) -> (outcome: Result<Vec<PlannedMove>, usize>)
    ensures
        match outcome {
            Ok(moves) => {
                &&& forall|i: int|
                    0 <= i < torrents@.len() ==> !is_stray(#[trigger] torrents@[i], rules@, *rule)
                &&& move_views(moves@) == low_space_moves(
                    torrents@,
                    rules@,
                    *rule,
                    required_bytes,
                )
            },
            Err(at) => at < torrents@.len() && is_stray(torrents@[at as int], rules@, *rule),
        },
{
    let candidates = match collect_low_space_candidates(torrents, rules, rule) {
        Ok(candidates) => candidates,
        Err(at) => {
            return Err(at);
        },
    };
    let batch = select_low_space_batch(&candidates, required_bytes);
    proof {
        let places = candidate_places(torrents@, rules@, *rule);
        assert forall|i: int| 0 <= i < places.len() implies (#[trigger] candidates@[i]).size
            == torrents@[places[i]].size by {
            assert(is_candidate(torrents@, *rule, places[i], candidates@[i]));
        }
        lemma_batch_end(torrents@, places, candidates@, required_bytes, batch@.len(), 0);
        lemma_batch_moves(torrents@, *rule, places, batch@, batch@.len());
    }
    Ok(plan_batch(&batch))
}

proof fn lemma_total_size_grows(candidates: Seq<MoveCandidate>, low: nat, high: nat)
    requires
        low <= high,
    ensures
        total_size(candidates, low) <= total_size(candidates, high),
    decreases high,
{
    if low < high {
        lemma_total_size_grows(candidates, low, (high - 1) as nat);
    }
}

/// A batch frees the required bytes wherever all groups together can, takes no group more than it
/// needs, and takes none where nothing is required.
pub proof fn law_batch_covers_deficit(
    candidates: Seq<MoveCandidate>,
    required: u64,
    count: nat,
    other: nat,
)
    requires
        is_batch(candidates, required, count),
        other <= candidates.len(),
    ensures
        total_size(candidates, candidates.len()) >= required ==> total_size(candidates, count)
            >= required,
        total_size(candidates, other) >= required ==> count <= other,
        required == 0 ==> count == 0,
{
    if total_size(candidates, other) >= required && other < count {
        assert(total_size(candidates, other) < required);
    }
    if required == 0 && count > 0 {
        assert(total_size(candidates, 0) < required);
    }
}

proof fn lemma_lead_places(torrents: Seq<TorrentInfo>, rules: Seq<Rule>, rule: Rule, count: nat)
    requires
        count <= torrents.len(),
    ensures
        ({
            let leads = lead_places(torrents, rules, rule, count);
            &&& forall|i: int|
                0 <= i < leads.len() ==> 0 <= #[trigger] leads[i] < count && is_group_lead(
                    torrents,
                    rules,
                    rule,
                    leads[i],
                )
            &&& forall|i: int, j: int|
                0 <= i < j < leads.len() ==> #[trigger] leads[i] < #[trigger] leads[j]
            &&& forall|at: int|
                0 <= at < count && is_group_lead(torrents, rules, rule, at)
                    ==> #[trigger] leads.contains(at)
        }),
    decreases count,
{
    if count > 0 {
        lemma_lead_places(torrents, rules, rule, (count - 1) as nat);
        let before = lead_places(torrents, rules, rule, (count - 1) as nat);
        let leads = lead_places(torrents, rules, rule, count);
        assert forall|at: int|
            0 <= at < count && is_group_lead(torrents, rules, rule, at) implies #[trigger] leads.contains(
        at) by {
            if at == count - 1 {
                assert(leads[before.len() as int] == at);
            } else {
                assert(before.contains(at));
                let k = choose|k: int| 0 <= k < before.len() && before[k] == at;
                assert(leads[k] == at);
            }
        }
    }
}

/// Each candidate leads its group; those completed first are in front, and no two of them share
/// their content.
pub proof fn law_candidates_oldest_first(torrents: Seq<TorrentInfo>, rules: Seq<Rule>, rule: Rule)
    ensures
        ({
            let places = candidate_places(torrents, rules, rule);
            &&& forall|i: int|
                0 <= i < places.len() ==> 0 <= #[trigger] places[i] < torrents.len()
                    && is_group_lead(torrents, rules, rule, places[i])
            &&& forall|i: int, j: int|
                0 <= i < j < places.len() ==> torrents[#[trigger] places[i]].completion_on
                    <= torrents[#[trigger] places[j]].completion_on && places[i] != places[j]
                    && !shares_content(torrents[places[i]], torrents[places[j]])
        }),
{
    let leads = lead_places(torrents, rules, rule, torrents.len());
    let keys = completions(torrents, leads);
    let places = candidate_places(torrents, rules, rule);
    let ordered = order(keys);
    lemma_lead_places(torrents, rules, rule, torrents.len());
    lemma_order_exists(keys);
    assert forall|i: int| 0 <= i < places.len() implies 0 <= #[trigger] places[i] < torrents.len()
        && is_group_lead(torrents, rules, rule, places[i]) by {
        assert(places[i] == leads[ordered[i]]);
    }
    assert forall|i: int, j: int| 0 <= i < j < places.len() implies torrents[#[trigger] places[i]].completion_on
        <= torrents[#[trigger] places[j]].completion_on && places[i] != places[j]
        && !shares_content(torrents[places[i]], torrents[places[j]]) by {
        assert(precedes(keys, ordered[i], ordered[j]));
        let a = ordered[i];
        let b = ordered[j];
        assert(places[i] == leads[a] && places[j] == leads[b]);
        assert(a != b);
        if a < b {
            assert(leads[a] < leads[b]);
        } else {
            assert(leads[b] < leads[a]);
        }
        let left = places[i];
        let right = places[j];
        if shares_content(torrents[left], torrents[right]) {
            assert(is_movable(torrents[left], rules, rule));
            assert(is_movable(torrents[right], rules, rule));
            assert(is_group_lead(torrents, rules, rule, left));
            assert(is_group_lead(torrents, rules, rule, right));
        }
    }
}

proof fn lemma_group_has_lead(
    torrents: Seq<TorrentInfo>,
    rules: Seq<Rule>,
    rule: Rule,
    at: int,
    count: nat,
) -> (lead: int)
    requires
        0 <= at < torrents.len(),
        count <= torrents.len(),
        is_movable(torrents[at], rules, rule),
    ensures
        0 <= lead < torrents.len(),
        is_movable(torrents[lead], rules, rule),
        lead == at || shares_content(torrents[at], torrents[lead]),
        forall|k: int|
            0 <= k < count && k != lead && is_movable(#[trigger] torrents[k], rules, rule)
                && shares_content(torrents[at], torrents[k]) ==> {
                ||| torrents[lead].completion_on < torrents[k].completion_on
                ||| torrents[lead].completion_on == torrents[k].completion_on && lead < k
            },
    decreases count,
{
    if count == 0 {
        at
    } else {
        let before = lemma_group_has_lead(torrents, rules, rule, at, (count - 1) as nat);
        let last = count - 1;
        if last != before && is_movable(torrents[last], rules, rule) && shares_content(
            torrents[at],
            torrents[last],
        ) && (torrents[last].completion_on < torrents[before].completion_on || (
        torrents[last].completion_on == torrents[before].completion_on && last < before)) {
            last
        } else {
            before
        }
    }
}

/// Every torrent that a rule can move belongs to the group of a candidate.
pub proof fn law_every_movable_torrent_is_covered(
    torrents: Seq<TorrentInfo>,
    rules: Seq<Rule>,
    rule: Rule,
    at: int,
)
    requires
        0 <= at < torrents.len(),
        is_movable(torrents[at], rules, rule),
    ensures
        exists|lead: int|
            #[trigger] candidate_places(torrents, rules, rule).contains(lead) && (lead == at
                || shares_content(torrents[lead], torrents[at])),
{
    let lead = lemma_group_has_lead(torrents, rules, rule, at, torrents.len());
    assert forall|k: int|
        0 <= k < torrents.len() && k != lead && is_movable(#[trigger] torrents[k], rules, rule)
            && shares_content(torrents[lead], torrents[k]) implies torrents[lead].completion_on
        < torrents[k].completion_on || torrents[lead].completion_on == torrents[k].completion_on
        && lead < k by {}
    assert(is_group_lead(torrents, rules, rule, lead));
    let leads = lead_places(torrents, rules, rule, torrents.len());
    let keys = completions(torrents, leads);
    let places = candidate_places(torrents, rules, rule);
    lemma_lead_places(torrents, rules, rule, torrents.len());
    lemma_order_exists(keys);
    assert(leads.contains(lead));
    let spot = choose|k: int| 0 <= k < leads.len() && leads[k] == lead;
    assert(order(keys).contains(spot));
    let i = choose|i: int| 0 <= i < order(keys).len() && order(keys)[i] == spot;
    assert(places[i] == lead);
    assert(places.contains(lead));
}

proof fn lemma_sibling_moves(
    torrents: Seq<TorrentInfo>,
    at: int,
    destination: Seq<char>,
    count: nat,
)
    requires
        0 <= at < torrents.len(),
        count <= torrents.len(),
    ensures
        ({
            let moves = sibling_moves(torrents, at, destination, count);
            &&& forall|i: int|
                0 <= i < moves.len() ==> (#[trigger] moves[i]).destination == destination
            &&& forall|k: int|
                0 <= k < count && k != at && shares_content(torrents[at], #[trigger] torrents[k])
                    ==> moves.contains(move_of(torrents[k], destination))
        }),
    decreases count,
{
    if count > 0 {
        lemma_sibling_moves(torrents, at, destination, (count - 1) as nat);
        let before = sibling_moves(torrents, at, destination, (count - 1) as nat);
        let moves = sibling_moves(torrents, at, destination, count);
        assert forall|k: int|
            0 <= k < count && k != at && shares_content(torrents[at], #[trigger] torrents[k]) implies moves.contains(
        move_of(torrents[k], destination)) by {
            let wanted = move_of(torrents[k], destination);
            if k == count - 1 {
                assert(moves[before.len() as int] == wanted);
            } else {
                assert(before.contains(wanted));
                let j = choose|j: int| 0 <= j < before.len() && before[j] == wanted;
                assert(moves[j] == wanted);
            }
        }
    }
}

/// All torrents of a candidate's group are moved, and to one destination.
pub proof fn law_group_is_queued_together(
    torrents: Seq<TorrentInfo>,
    rule: Rule,
    at: int,
    candidate: MoveCandidate,
    other: int,
)
    requires
        0 <= at < torrents.len(),
        is_candidate(torrents, rule, at, candidate),
        0 <= other < torrents.len(),
        other == at || shares_content(torrents[at], torrents[other]),
    ensures
        candidate.moves().contains(move_of(torrents[other], candidate.destination@)),
        forall|i: int|
            0 <= i < candidate.moves().len() ==> (#[trigger] candidate.moves()[i]).destination
                == candidate.destination@,
{
    let destination = candidate.destination@;
    let siblings = sibling_moves(torrents, at, destination, torrents.len());
    let wanted = move_of(torrents[other], destination);
    lemma_sibling_moves(torrents, at, destination, torrents.len());
    if other == at {
        assert(candidate.moves()[0] == wanted);
    } else {
        assert(siblings.contains(wanted));
        let j = choose|j: int| 0 <= j < siblings.len() && siblings[j] == wanted;
        assert(candidate.moves()[j + 1] == wanted);
    }
    assert forall|i: int| 0 <= i < candidate.moves().len() implies (
    #[trigger] candidate.moves()[i]).destination == destination by {
        if i > 0 {
            assert(candidate.moves()[i] == siblings[i - 1]);
        }
    }
}

/// The wait is over exactly when every accepted move is finished.
pub proof fn law_wait_ends_when_all_moves_are_done(
    torrents: Seq<TorrentInfo>,
    queued: Seq<QueuedMove>,
    count: nat,
)
    requires
        count <= queued.len(),
    ensures
        (pending_count(torrents, queued, count) == 0) == (forall|i: int|
            0 <= i < count ==> !is_pending(torrents, #[trigger] queued[i])),
    decreases count,
{
    if count > 0 {
        law_wait_ends_when_all_moves_are_done(torrents, queued, (count - 1) as nat);
    }
}

/// How many bytes the first `count` groups take together.
pub open spec fn groups_size(torrents: Seq<TorrentInfo>, places: Seq<int>, count: nat) -> nat
    decreases count,
{
    if count == 0 {
        0
    } else {
        groups_size(torrents, places, (count - 1) as nat) + torrents[places[count - 1]].size as nat
    }
}

proof fn lemma_batch_end_covers(
    torrents: Seq<TorrentInfo>,
    places: Seq<int>,
    required: int,
    from: nat,
)
    requires
        from <= places.len(),
    ensures
        ({
            let end = batch_end(torrents, places, required, from);
            &&& from <= end <= places.len()
            &&& end < places.len() ==> groups_size(torrents, places, end) - groups_size(
                torrents,
                places,
                from,
            ) >= required
            &&& forall|fewer: nat|
                from <= fewer < end ==> #[trigger] groups_size(torrents, places, fewer)
                    - groups_size(torrents, places, from) < required
        }),
    decreases places.len() - from,
{
    if required > 0 && from < places.len() {
        lemma_batch_end_covers(
            torrents,
            places,
            required - torrents[places[from as int]].size,
            from + 1,
        );
    }
}

/// The groups that are moved free the required bytes, each group counted once, unless there are no
/// more groups; and no fewer of them would.
pub proof fn law_moves_cover_deficit(
    torrents: Seq<TorrentInfo>,
    rules: Seq<Rule>,
    rule: Rule,
    required: u64,
)
    ensures
        ({
            let places = candidate_places(torrents, rules, rule);
            let count = batch_end(torrents, places, required as int, 0);
            &&& count <= places.len()
            &&& count < places.len() ==> groups_size(torrents, places, count) >= required
            &&& forall|fewer: nat|
                fewer < count ==> #[trigger] groups_size(torrents, places, fewer) < required
            &&& low_space_moves(torrents, rules, rule, required) == moves_of_groups(
                torrents,
                rule,
                places,
                count,
            )
        }),
{
    let places = candidate_places(torrents, rules, rule);
    lemma_batch_end_covers(torrents, places, required as int, 0);
}

proof fn lemma_moves_of_groups(
    torrents: Seq<TorrentInfo>,
    rule: Rule,
    places: Seq<int>,
    count: nat,
    at: int,
    other: int,
)
    requires
        count <= places.len(),
        0 <= at < count,
        0 <= places[at] < torrents.len(),
        0 <= other < torrents.len(),
        other == places[at] || shares_content(torrents[places[at]], torrents[other]),
    ensures
        moves_of_groups(torrents, rule, places, count).contains(
            move_of(torrents[other], rule_destination(torrents[places[at]], rule)),
        ),
    decreases count,
{
    let moves = moves_of_groups(torrents, rule, places, count);
    let before = moves_of_groups(torrents, rule, places, (count - 1) as nat);
    let destination = rule_destination(torrents[places[at]], rule);
    let wanted = move_of(torrents[other], destination);
    if at < count - 1 {
        lemma_moves_of_groups(torrents, rule, places, (count - 1) as nat, at, other);
        let j = choose|j: int| 0 <= j < before.len() && before[j] == wanted;
        assert(moves[j] == wanted);
    } else {
        let group = group_moves(torrents, rule, places[at]);
        let siblings = sibling_moves(torrents, places[at], destination, torrents.len());
        lemma_sibling_moves(torrents, places[at], destination, torrents.len());
        if other == places[at] {
            assert(group[0] == wanted);
            assert(moves[before.len() as int] == wanted);
        } else {
            assert(siblings.contains(wanted));
            let j = choose|j: int| 0 <= j < siblings.len() && siblings[j] == wanted;
            assert(group[j + 1] == wanted);
            assert(moves[before.len() + j + 1] == wanted);
        }
    }
}

/// Of a group that is selected every torrent is moved, to the destination of the one that leads it.
pub proof fn law_selected_groups_move_whole(
    torrents: Seq<TorrentInfo>,
    rules: Seq<Rule>,
    rule: Rule,
    required: u64,
    at: int,
    other: int,
)
    requires
        0 <= at < batch_end(
            torrents,
            candidate_places(torrents, rules, rule),
            required as int,
            0,
        ),
        0 <= other < torrents.len(),
        other == candidate_places(torrents, rules, rule)[at] || shares_content(
            torrents[candidate_places(torrents, rules, rule)[at]],
            torrents[other],
        ),
    ensures
        low_space_moves(torrents, rules, rule, required).contains(
            move_of(
                torrents[other],
                rule_destination(torrents[candidate_places(torrents, rules, rule)[at]], rule),
            ),
        ),
{
    let places = candidate_places(torrents, rules, rule);
    lemma_batch_end_covers(torrents, places, required as int, 0);
    law_candidates_oldest_first(torrents, rules, rule);
    assert(0 <= places[at] < torrents.len());
    lemma_moves_of_groups(
        torrents,
        rule,
        places,
        batch_end(torrents, places, required as int, 0),
        at,
        other,
    );
}

/// A rule can free space by moving a torrent if and only if the torrent is complete, has a completion
/// time and a size, is not being moved, and lies where this rule and no other applies.
pub proof fn law_what_a_rule_can_move(
    raw_rules: Seq<RuleConfig>,
    rules: Seq<Rule>,
    at: int,
    torrent: TorrentInfo,
)
    requires
        are_rules(raw_rules, rules),
        0 <= at < rules.len(),
    ensures
        is_movable(torrent, rules, rules[at]) <==> {
            &&& !torrent.progress.is_less(of_integer(1))
            &&& torrent.completion_on > 0
            &&& torrent.state@ != "moving"@
            &&& torrent.size > 0
            &&& matching_rule(rules, normal_path(torrent.save_path@)) == Some(at)
        },
        is_movable(torrent, rules, rules[at]) ==> components(rule_destination(torrent, rules[at]))
            == components(rules[at].target_path@) + components(
            normal_path(torrent.save_path@),
        ).skip(components(rules[at].source_path@).len() as int),
        !is_stray(torrent, rules, rules[at]),
{
    let path = normal_path(torrent.save_path@);
    law_longest_source_applies(raw_rules, rules, path);
    law_most_specific_rule_wins(rules, path);
    assert(is_compiled(raw_rules[at], at, rules[at]));
    if let Some(place) = matching_rule(rules, path) {
        assert(is_compiled(raw_rules[place], place, rules[place]));
        if place == at {
            assert(rule_fault(raw_rules, at) is None);
            assert(holds_path(rules[at], path));
            law_rules_always_lead_elsewhere(raw_rules, at, rules[at], torrent.save_path@);
        }
    }
}

/// Groups that were completed at the same time keep the order in which they are listed.
pub proof fn law_candidates_keep_their_order(
    torrents: Seq<TorrentInfo>,
    rules: Seq<Rule>,
    rule: Rule,
    i: int,
    j: int,
)
    requires
        0 <= i < j < candidate_places(torrents, rules, rule).len(),
    ensures
        ({
            let left = candidate_places(torrents, rules, rule)[i];
            let right = candidate_places(torrents, rules, rule)[j];
            torrents[left].completion_on < torrents[right].completion_on || (
            torrents[left].completion_on == torrents[right].completion_on && left < right)
        }),
{
    let leads = lead_places(torrents, rules, rule, torrents.len());
    let keys = completions(torrents, leads);
    let ordered = order(keys);
    lemma_lead_places(torrents, rules, rule, torrents.len());
    lemma_order_exists(keys);
    assert(precedes(keys, ordered[i], ordered[j]));
    if ordered[i] < ordered[j] {
        assert(leads[ordered[i]] < leads[ordered[j]]);
    }
}

/// A group is led by the torrent that was completed first of those that the rule can move and that
/// share their content, the one listed first if there are several.
pub proof fn law_oldest_torrent_leads_its_group(
    torrents: Seq<TorrentInfo>,
    rules: Seq<Rule>,
    rule: Rule,
    lead: int,
    other: int,
)
    requires
        candidate_places(torrents, rules, rule).contains(lead),
        0 <= other < torrents.len(),
        is_movable(torrents[other], rules, rule),
        torrents[other].content_path@ == torrents[lead].content_path@,
        torrents[lead].content_path@ != Seq::<char>::empty(),
    ensures
        0 <= lead < torrents.len(),
        is_movable(torrents[lead], rules, rule),
        torrents[lead].completion_on < torrents[other].completion_on || (
        torrents[lead].completion_on == torrents[other].completion_on && lead <= other),
{
    law_candidates_oldest_first(torrents, rules, rule);
    let places = candidate_places(torrents, rules, rule);
    let i = choose|i: int| 0 <= i < places.len() && places[i] == lead;
    assert(is_group_lead(torrents, rules, rule, places[i]));
    if torrents[lead].content_path@.len() == 0 {
        assert(torrents[lead].content_path@ =~= Seq::<char>::empty());
    }
    assert(other != lead ==> shares_content(torrents[lead], torrents[other]));
}

/// A move names its torrent, where that lies, where it goes, how big it is, and whether it is under
/// automatic management.
pub proof fn law_moves_describe_their_torrents(torrent: TorrentInfo, destination: Seq<char>)
    ensures
        move_of(torrent, destination).hash == torrent.hash@,
        move_of(torrent, destination).name == torrent.name@,
        move_of(torrent, destination).save_path == normal_path(torrent.save_path@),
        move_of(torrent, destination).destination == destination,
        move_of(torrent, destination).size == torrent.size,
        move_of(torrent, destination).auto_tmm == torrent.auto_tmm,
{
}

/// Whether each of some moves is that of a torrent which leads one of the first `count` groups or
/// shares the content of one that does, to where the leading one goes, and no torrent occurs twice.
pub open spec fn are_moves_of(
    torrents: Seq<TorrentInfo>,
    rule: Rule,
    leads: Seq<int>,
    count: nat,
    moves: Seq<MoveView>,
    origins: Seq<int>,
    groups: Seq<int>,
) -> bool {
    &&& origins.len() == moves.len()
    &&& groups.len() == moves.len()
    &&& forall|i: int|
        0 <= i < moves.len() ==> {
            &&& 0 <= #[trigger] groups[i] < count
            &&& 0 <= origins[i] < torrents.len()
            &&& origins[i] == leads[groups[i]] || shares_content(
                torrents[leads[groups[i]]],
                torrents[origins[i]],
            )
            &&& moves[i] == move_of(
                torrents[origins[i]],
                rule_destination(torrents[leads[groups[i]]], rule),
            )
        }
    &&& forall|i: int, j: int|
        0 <= i < j < moves.len() ==> #[trigger] origins[i] != #[trigger] origins[j]
    &&& forall|i: int, j: int| 0 <= i < j < moves.len() ==> #[trigger] groups[i] <= #[trigger] groups[j]
}

/// What is moved are torrents of the selected groups and no others, each once, group by group.
pub proof fn law_only_selected_groups_move(
    torrents: Seq<TorrentInfo>,
    rules: Seq<Rule>,
    rule: Rule,
    required: u64,
)
    ensures
        ({
            let places = candidate_places(torrents, rules, rule);
            let count = batch_end(torrents, places, required as int, 0);
            exists|origins: Seq<int>, groups: Seq<int>| #[trigger]
                are_moves_of(
                    torrents,
                    rule,
                    places,
                    count,
                    low_space_moves(torrents, rules, rule, required),
                    origins,
                    groups,
                )
        }),
{
    let places = candidate_places(torrents, rules, rule);
    law_candidates_oldest_first(torrents, rules, rule);
    lemma_batch_end_covers(torrents, places, required as int, 0);
    let count = batch_end(torrents, places, required as int, 0);
    let origins = group_origins(torrents, places, count);
    let groups = group_numbers(torrents, places, count);
    lemma_group_origins(torrents, rule, places, count);
    assert(are_moves_of(
        torrents,
        rule,
        places,
        count,
        low_space_moves(torrents, rules, rule, required),
        origins,
        groups,
    ));
}

spec fn sibling_places(torrents: Seq<TorrentInfo>, at: int, count: nat) -> Seq<int>
    decreases count,
{
    if count == 0 {
        Seq::empty()
    } else {
        let before = sibling_places(torrents, at, (count - 1) as nat);
        if count - 1 != at && shares_content(torrents[at], torrents[count - 1]) {
            before.push(count - 1)
        } else {
            before
        }
    }
}

spec fn group_origins(torrents: Seq<TorrentInfo>, places: Seq<int>, count: nat) -> Seq<int>
    decreases count,
{
    if count == 0 {
        Seq::empty()
    } else {
        group_origins(torrents, places, (count - 1) as nat) + (seq![places[count - 1]]
            + sibling_places(torrents, places[count - 1], torrents.len()))
    }
}

spec fn group_numbers(torrents: Seq<TorrentInfo>, places: Seq<int>, count: nat) -> Seq<int>
    decreases count,
{
    if count == 0 {
        Seq::empty()
    } else {
        group_numbers(torrents, places, (count - 1) as nat) + Seq::new(
            sibling_places(torrents, places[count - 1], torrents.len()).len() + 1,
            |i: int| count - 1,
        )
    }
}

proof fn lemma_sibling_places(
    torrents: Seq<TorrentInfo>,
    at: int,
    destination: Seq<char>,
    count: nat,
)
    requires
        count <= torrents.len(),
    ensures
        ({
            let places = sibling_places(torrents, at, count);
            let moves = sibling_moves(torrents, at, destination, count);
            &&& places.len() == moves.len()
            &&& forall|i: int|
                0 <= i < places.len() ==> 0 <= #[trigger] places[i] < count && places[i] != at
                    && shares_content(torrents[at], torrents[places[i]]) && moves[i] == move_of(
                    torrents[places[i]],
                    destination,
                )
            &&& forall|i: int, j: int|
                0 <= i < j < places.len() ==> #[trigger] places[i] < #[trigger] places[j]
        }),
    decreases count,
{
    if count > 0 {
        lemma_sibling_places(torrents, at, destination, (count - 1) as nat);
    }
}

proof fn lemma_group_origins(
    torrents: Seq<TorrentInfo>,
    rule: Rule,
    places: Seq<int>,
    count: nat,
)
    requires
        count <= places.len(),
        forall|i: int| 0 <= i < places.len() ==> 0 <= #[trigger] places[i] < torrents.len(),
        forall|i: int, j: int|
            0 <= i < j < places.len() ==> #[trigger] places[i] != #[trigger] places[j]
                && !shares_content(torrents[places[i]], torrents[places[j]]),
    ensures
        are_moves_of(
            torrents,
            rule,
            places,
            count,
            moves_of_groups(torrents, rule, places, count),
            group_origins(torrents, places, count),
            group_numbers(torrents, places, count),
        ),
    decreases count,
{
    if count > 0 {
        let fewer = (count - 1) as nat;
        let at = places[count - 1];
        let destination = rule_destination(torrents[at], rule);
        lemma_group_origins(torrents, rule, places, fewer);
        lemma_sibling_places(torrents, at, destination, torrents.len());
        let before = group_origins(torrents, places, fewer);
        let siblings = sibling_places(torrents, at, torrents.len());
        let own = seq![at] + siblings;
        let origins = group_origins(torrents, places, count);
        let groups = group_numbers(torrents, places, count);
        let numbers = group_numbers(torrents, places, fewer);
        let moves = moves_of_groups(torrents, rule, places, count);
        let group = group_moves(torrents, rule, at);
        assert(own.len() == group.len());
        assert forall|i: int| 0 <= i < moves.len() implies {
            &&& 0 <= #[trigger] groups[i] < count
            &&& 0 <= origins[i] < torrents.len()
            &&& origins[i] == places[groups[i]] || shares_content(
                torrents[places[groups[i]]],
                torrents[origins[i]],
            )
            &&& moves[i] == move_of(
                torrents[origins[i]],
                rule_destination(torrents[places[groups[i]]], rule),
            )
        } by {
            if i < before.len() {
                assert(groups[i] == numbers[i]);
                assert(origins[i] == before[i]);
            } else {
                let k = i - before.len();
                assert(groups[i] == count - 1);
                assert(origins[i] == own[k]);
                assert(moves[i] == group[k]);
                if k > 0 {
                    assert(own[k] == siblings[k - 1]);
                }
            }
        }
        assert forall|i: int, j: int| 0 <= i < j < moves.len() implies #[trigger] origins[i]
            != #[trigger] origins[j] by {
            if j < before.len() {
                assert(before[i] != before[j]);
            } else if i >= before.len() {
                let a = i - before.len();
                let b = j - before.len();
                assert(origins[i] == own[a] && origins[j] == own[b]);
                assert(own[b] == siblings[b - 1]);
                if a > 0 {
                    assert(own[a] == siblings[a - 1]);
                }
            } else {
                let b = j - before.len();
                let lead = places[numbers[i]];
                assert(0 <= numbers[i] < fewer);
                assert(origins[i] == before[i] && origins[j] == own[b]);
                assert(places[numbers[i]] != places[count - 1]);
                assert(before[i] == lead || shares_content(torrents[lead], torrents[before[i]]));
                if b > 0 {
                    assert(own[b] == siblings[b - 1]);
                }
                if before[i] == own[b] {
                    assert(shares_content(torrents[lead], torrents[at]));
                }
            }
        }
        assert forall|i: int, j: int| 0 <= i < j < moves.len() implies #[trigger] groups[i]
            <= #[trigger] groups[j] by {
            if j < before.len() {
                assert(numbers[i] <= numbers[j]);
            } else if i < before.len() {
                assert(groups[i] == numbers[i]);
            }
        }
    }
}

/// An accepted move is finished once qBittorrent no longer lists the torrent, or lists it at the
/// destination and not as moving. Of several entries with one hash the last counts.
pub proof fn law_when_a_move_is_finished(torrents: Seq<TorrentInfo>, queued: QueuedMove)
    ensures
        is_pending(torrents, queued) <==> exists|k: int|
            #![trigger torrents[k]]
            0 <= k < torrents.len() && torrents[k].hash@ == queued.hash@ && (forall|l: int|
                k < l < torrents.len() ==> (#[trigger] torrents[l]).hash@ != queued.hash@) && (
            torrents[k].state@ == "moving"@ || components(normal_path(torrents[k].save_path@))
                != components(queued.destination@)),
{
    lemma_place_of_hash(torrents, queued.hash@, torrents.len());
}

proof fn lemma_place_of_hash(torrents: Seq<TorrentInfo>, hash: Seq<char>, count: nat)
    requires
        count <= torrents.len(),
    ensures
        match place_of_hash(torrents, hash, count) {
            Some(place) => 0 <= place < count && torrents[place].hash@ == hash && forall|l: int|
                place < l < count ==> (#[trigger] torrents[l]).hash@ != hash,
            None => forall|l: int| 0 <= l < count ==> (#[trigger] torrents[l]).hash@ != hash,
        },
    decreases count,
{
    if count > 0 {
        lemma_place_of_hash(torrents, hash, (count - 1) as nat);
    }
}

/// The share of a filesystem that is free, and the bytes that are wanting before a given share is:
/// the share counts in per cent of the whole, and what is wanting is rounded up to whole bytes.
pub proof fn law_free_space_is_a_share_of_the_whole(usage: FilesystemUsage, least: Number)
    ensures
        usage.total_bytes == 0 ==> percent_free(usage) == of_integer(0),
        usage.total_bytes > 0 ==> percent_free(usage) == of_integer(
            usage.available_bytes as int,
        ).quotient(of_integer(usage.total_bytes as int)).product(of_integer(100)),
        has_free_space(usage, least) <==> !least.is_none() && !percent_free(usage).is_none()
            && !percent_free(usage).is_less(least),
        missing_bytes(usage, least) >= 0,
        missing_bytes(usage, least) > 0 ==> usage.available_bytes + missing_bytes(usage, least)
            == of_integer(usage.total_bytes as int).product(
            least.quotient(of_integer(100)),
        ).ceiling_within(u64::MAX as nat),
        missing_bytes(usage, least) == 0 ==> usage.available_bytes >= of_integer(
            usage.total_bytes as int,
        ).product(least.quotient(of_integer(100))).ceiling_within(u64::MAX as nat),
{
}

/// The room of a filesystem is that of its blocks, or the most that 64 bits can say.
pub proof fn law_room_is_that_of_the_blocks(blocks: u64, block_size: u64)
    ensures
        blocks * block_size < 0x1_0000_0000_0000_0000 ==> saturated_product(blocks, block_size)
            == blocks * block_size,
        blocks * block_size >= 0x1_0000_0000_0000_0000 ==> saturated_product(blocks, block_size)
            == 0xffff_ffff_ffff_ffff,
{
}

} // verus!
