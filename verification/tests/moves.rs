use qb_tools::age::{judge_age, plan_age_moves, AgeStep, SkipReason, TorrentInfo};
use qb_tools::low_space::{
    collect_low_space_candidates, count_pending_moves, enough_free_space, ensure_low_space_rules,
    free_space_deficit_bytes, free_space_percent, plan_batch, plan_low_space_moves,
    select_low_space_batch, usage_of_blocks, FilesystemUsage, MoveCandidate, QueuedMove,
};
use qb_tools::number::Number;
use qb_tools::rules::{compile_rules, Rule, RuleConfig};

const DAY: i64 = 86_400;

fn num(value: f64) -> Number {
    Number { bits: value.to_bits() }
}

fn rules(list: &[(&str, &str, u64, Option<f64>)]) -> Vec<Rule> {
    let raw = list
        .iter()
        .map(|(source, target, days, percent)| RuleConfig {
            source_path: source.to_string(),
            target_path: target.to_string(),
            min_days_since_completion: *days,
            min_free_space_percent: percent.map(num),
        })
        .collect();
    match compile_rules(raw) {
        Ok(rules) => rules,
        Err(_) => panic!("rules compile"),
    }
}

fn torrent(name: &str, save_path: &str, completion_on: i64) -> TorrentInfo {
    TorrentInfo {
        hash: format!("hash-{name}"),
        name: name.to_string(),
        progress: num(1.0),
        completion_on,
        save_path: save_path.to_string(),
        content_path: String::new(),
        size: 100,
        auto_tmm: false,
        state: "uploading".to_string(),
    }
}

fn sharing(mut torrent: TorrentInfo, content_path: &str) -> TorrentInfo {
    torrent.content_path = content_path.to_string();
    torrent
}

fn candidate(name: &str, completion_on: u64, size: u64) -> MoveCandidate {
    MoveCandidate {
        hash: format!("hash-{name}"),
        name: name.to_string(),
        save_path: "/Volumes/SSD".to_string(),
        destination: "/Volumes/HDD".to_string(),
        completion_on,
        size,
        auto_tmm: false,
        siblings: vec![],
    }
}

#[test]
fn selects_oldest_candidates_until_deficit_is_covered() {
    let candidates = vec![
        candidate("oldest", 10, 100),
        candidate("older", 20, 150),
        candidate("newer", 30, 400),
    ];

    let selected = select_low_space_batch(&candidates, 220);
    assert_eq!(selected.len(), 2);
    assert_eq!(selected[0].name, "oldest");
    assert_eq!(selected[1].name, "older");
}

#[test]
fn returns_all_candidates_if_deficit_exceeds_available_space_to_reclaim() {
    let candidates = vec![candidate("oldest", 10, 100), candidate("older", 20, 150)];

    let selected = select_low_space_batch(&candidates, 1_000);
    assert_eq!(selected.len(), 2);
}

#[test]
fn calculates_free_space_deficit_from_percentage() {
    let usage = FilesystemUsage {
        total_bytes: 1_000,
        available_bytes: 80,
    };

    assert_eq!(free_space_deficit_bytes(usage, num(10.0)), 20);
}

#[test]
fn selects_nothing_where_nothing_is_missing() {
    let candidates = vec![candidate("oldest", 10, 100)];
    assert!(select_low_space_batch(&candidates, 0).is_empty());
    assert_eq!(select_low_space_batch(&candidates, 100).len(), 1);
    let huge = vec![
        candidate("a", 1, u64::MAX - 1),
        candidate("b", 2, 10),
        candidate("c", 3, 10),
    ];
    assert_eq!(select_low_space_batch(&huge, u64::MAX).len(), 2);
}

#[test]
fn free_space_is_a_percentage() {
    let usage = FilesystemUsage {
        total_bytes: 1_000,
        available_bytes: 125,
    };
    assert_eq!(f64::from_bits(free_space_percent(usage).bits), 12.5);
    assert!(enough_free_space(usage, num(12.5)));
    assert!(!enough_free_space(usage, num(12.6)));
    let empty = FilesystemUsage {
        total_bytes: 0,
        available_bytes: 0,
    };
    assert_eq!(f64::from_bits(free_space_percent(empty).bits), 0.0);
    assert_eq!(free_space_deficit_bytes(empty, num(10.0)), 0);
    assert_eq!(free_space_deficit_bytes(usage, num(12.0)), 0);
    assert_eq!(free_space_deficit_bytes(usage, num(12.55)), 1);
    let usage = usage_of_blocks(4096, 10, 3);
    assert_eq!((usage.total_bytes, usage.available_bytes), (40_960, 12_288));
    let usage = usage_of_blocks(4096, u64::MAX, 1);
    assert_eq!((usage.total_bytes, usage.available_bytes), (u64::MAX, 4096));
}

#[test]
fn some_rule_has_to_ask_for_free_space() {
    assert!(!ensure_low_space_rules(&rules(&[("/a", "/b", 1, None)])));
    assert!(ensure_low_space_rules(&rules(&[
        ("/a", "/b", 1, None),
        ("/c", "/d", 1, Some(5.0)),
    ])));
}

fn judged(torrent: &TorrentInfo, now: u64) -> Result<String, SkipReason> {
    judge_age(torrent, &rules(&[("/ssd", "/hdd", 7, None)]), now)
}

#[test]
fn torrents_are_due_after_the_days_of_their_rule() {
    let now = 100 * DAY as u64;
    let due = torrent("due", "/ssd/Movies/", 93 * DAY);
    assert_eq!(judged(&due, now), Ok("/hdd/Movies".to_string()));
    let young = torrent("young", "/ssd/Movies", 93 * DAY + 1);
    assert_eq!(
        judged(&young, now),
        Err(SkipReason::TooYoung { age_days: 6, min_days: 7 })
    );
    let ahead = torrent("ahead", "/ssd/Movies", 101 * DAY);
    assert_eq!(
        judged(&ahead, now),
        Err(SkipReason::TooYoung { age_days: 0, min_days: 7 })
    );
}

#[test]
fn torrents_are_skipped_for_the_first_reason() {
    let now = 100 * DAY as u64;
    let mut sample = torrent("sample", "/elsewhere", 0);
    sample.progress = num(0.999);
    assert_eq!(judged(&sample, now), Err(SkipReason::Incomplete));
    sample.progress = num(1.0);
    assert_eq!(judged(&sample, now), Err(SkipReason::NoCompletionTime));
    sample.completion_on = -1;
    assert_eq!(judged(&sample, now), Err(SkipReason::NoCompletionTime));
    sample.completion_on = 1;
    sample.state = "moving".to_string();
    assert_eq!(judged(&sample, now), Err(SkipReason::AlreadyMoving));
    sample.state = "stalledUP".to_string();
    assert_eq!(judged(&sample, now), Err(SkipReason::NoRule));
    let loops = rules(&[("/ssd", "/hdd", 0, None), ("/hdd/x", "/hdd/y", u64::MAX, None)]);
    sample.save_path = "/hdd/x".to_string();
    assert_eq!(
        judge_age(&sample, &loops, now),
        Err(SkipReason::TooYoung { age_days: 99, min_days: u64::MAX })
    );
    sample.save_path = "/ssd/../ssd/a".to_string();
    assert_eq!(judge_age(&sample, &loops, now), Ok("/hdd/a".to_string()));
}

#[test]
fn torrents_that_share_content_move_together() {
    let now = 100 * DAY as u64;
    let rules = rules(&[("/ssd", "/hdd", 7, None)]);
    let torrents = vec![
        sharing(torrent("young", "/ssd/a", 99 * DAY), "/ssd/a/film"),
        torrent("alone", "/ssd/b", 99 * DAY),
        sharing(torrent("old", "/ssd/a", 10 * DAY), "/ssd/a/film"),
        sharing(torrent("other", "/ssd/c", 99 * DAY), "/ssd/c/film"),
        torrent("single", "/ssd/d", 10 * DAY),
    ];
    let steps = plan_age_moves(&torrents, &rules, now);
    assert_eq!(steps.len(), 5);
    for at in [0, 2] {
        assert!(matches!(
            &steps[at],
            AgeStep::Move { leader: 2, destination } if destination == "/hdd/a"
        ));
    }
    assert!(matches!(steps[1], AgeStep::Skip(SkipReason::TooYoung { age_days: 1, min_days: 7 })));
    assert!(matches!(steps[3], AgeStep::Skip(SkipReason::TooYoung { .. })));
    assert!(matches!(&steps[4], AgeStep::Move { leader: 4, destination } if destination == "/hdd/d"));
}

fn collected(torrents: &Vec<TorrentInfo>, rules: &Vec<Rule>, at: usize) -> Vec<MoveCandidate> {
    match collect_low_space_candidates(torrents, rules, &rules[at]) {
        Ok(candidates) => candidates,
        Err(_) => panic!("candidates"),
    }
}

#[test]
fn candidates_are_the_groups_of_a_rule_oldest_first() {
    let rules = rules(&[
        ("/ssd", "/hdd", 7, Some(10.0)),
        ("/ssd/tv", "/hdd/tv", 7, Some(10.0)),
    ]);
    let mut busy = torrent("busy", "/ssd/a", 1);
    busy.state = "moving".to_string();
    let mut empty = torrent("empty", "/ssd/a", 1);
    empty.size = 0;
    let mut part = torrent("part", "/ssd/a", 1);
    part.progress = num(0.5);
    let torrents = vec![
        torrent("late", "/ssd/a", 50),
        sharing(torrent("seed", "/ssd/b", 40), "/ssd/b/film"),
        torrent("tv", "/ssd/tv/show", 5),
        busy,
        empty,
        part,
        sharing(torrent("first", "/ssd/b", 30), "/ssd/b/film"),
        torrent("early", "/ssd/c", 30),
        sharing(torrent("elsewhere", "/elsewhere", 0), "/ssd/b/film"),
        torrent("unfinished", "/ssd/a", 0),
    ];
    let candidates = collected(&torrents, &rules, 0);
    let names: Vec<&str> = candidates.iter().map(|one| one.name.as_str()).collect();
    assert_eq!(names, vec!["first", "early", "late"]);
    assert_eq!(candidates[0].destination, "/hdd/b");
    assert_eq!(candidates[0].completion_on, 30);
    assert_eq!(candidates[0].size, 100);
    let siblings: Vec<&str> = candidates[0].siblings.iter().map(|one| one.name.as_str()).collect();
    assert_eq!(siblings, vec!["seed", "elsewhere"]);
    assert!(candidates[0].siblings.iter().all(|one| one.destination == "/hdd/b"));
    assert!(candidates[1].siblings.is_empty());
    let shows = collected(&torrents, &rules, 1);
    assert_eq!(shows.len(), 1);
    assert_eq!(shows[0].destination, "/hdd/tv/show");
}

#[test]
fn group_counts_once_and_is_queued_whole() {
    let rules = rules(&[("/ssd", "/hdd", 7, Some(10.0))]);
    let torrents = vec![
        sharing(torrent("a", "/ssd/x", 10), "/ssd/x/film"),
        sharing(torrent("b", "/ssd/x", 20), "/ssd/x/film"),
        torrent("c", "/ssd/y", 30),
        torrent("d", "/ssd/z", 40),
    ];
    let moves = match plan_low_space_moves(&torrents, &rules, &rules[0], 150) {
        Ok(moves) => moves,
        Err(_) => panic!("moves"),
    };
    let names: Vec<&str> = moves.iter().map(|one| one.name.as_str()).collect();
    assert_eq!(names, vec!["a", "b", "c"]);
    assert_eq!(moves[1].destination, "/hdd/x");
    assert_eq!(moves[2].destination, "/hdd/y");
    let candidates = collected(&torrents, &rules, 0);
    let batch = select_low_space_batch(&candidates, 100);
    assert_eq!(plan_batch(&batch).len(), 2);
}

#[test]
fn torrent_outside_the_source_of_its_rule_is_turned_down() {
    let mut list = rules(&[("/ssd", "/hdd", 7, Some(10.0)), ("/a", "/b", 7, Some(10.0))]);
    list[1].index = 0;
    let torrents = vec![torrent("x", "/elsewhere", 1), torrent("y", "/ssd/a", 1)];
    assert!(matches!(
        collect_low_space_candidates(&torrents, &list, &list[1]),
        Err(1)
    ));
}

fn queued(name: &str, destination: &str) -> QueuedMove {
    QueuedMove {
        hash: format!("hash-{name}"),
        name: name.to_string(),
        destination: destination.to_string(),
    }
}

#[test]
fn moves_are_pending_until_their_torrents_arrive() {
    let moves = vec![queued("a", "/hdd/a"), queued("b", "/hdd/b"), queued("gone", "/hdd/c")];
    let mut torrents = vec![torrent("a", "/hdd/a/", 1), torrent("b", "/ssd/b", 1)];
    assert_eq!(count_pending_moves(&torrents, &moves), 1);
    torrents[0].state = "moving".to_string();
    assert_eq!(count_pending_moves(&torrents, &moves), 2);
    torrents[0].state = String::new();
    torrents[1].save_path = "/hdd/./b".to_string();
    assert_eq!(count_pending_moves(&torrents, &moves), 0);
    torrents.push(torrent("b", "/ssd/b", 1));
    assert_eq!(count_pending_moves(&torrents, &moves), 1);
}
