use qb_tools::condition::{ConditionError, ConditionSpec, SortAction};
use qb_tools::expression::parse_expression;
use qb_tools::filter::{FilterConfig, StatusSelector};
use qb_tools::number::Number;
use qb_tools::task::{
    count_cross_seeds, cross_seed_stats, plan_task, record_delete_candidate, record_group,
    run_strategy, AutoremoveTask, DeleteCandidate, StrategyConfig,
};
use qb_tools::torrent::{ClientStatus, Torrent, TorrentStatus};

fn num(value: f64) -> Number {
    Number { bits: value.to_bits() }
}

fn torrent(name: &str) -> Torrent {
    Torrent {
        hash: format!("hash-{name}"),
        name: name.to_string(),
        content_path: String::new(),
        category: vec![],
        tracker: vec![],
        status: TorrentStatus::Uploading,
        stalled: false,
        size: 100,
        ratio: num(1.0),
        uploaded: 100,
        downloaded: 100,
        create_time: 100,
        seeding_time: 100,
        downloading_time: 100,
        upload_speed: 100,
        average_upload_speed: 100,
        download_speed: 100,
        average_download_speed: 100,
        last_activity: Some(100),
        seeder: 10,
        connected_seeder: 5,
        leecher: 5,
        connected_leecher: 3,
        progress: num(1.0),
    }
}

fn with(name: &str, ratio: f64, content_path: &str) -> Torrent {
    let mut torrent = torrent(name);
    torrent.ratio = num(ratio);
    torrent.content_path = content_path.to_string();
    torrent
}

fn status() -> ClientStatus {
    ClientStatus {
        download_speed: 0,
        total_downloaded: 0,
        upload_speed: 0,
        total_uploaded: 0,
        free_space_on_disk: None,
    }
}

fn no_status() -> StatusSelector {
    StatusSelector {
        statuses: vec![],
        stalled_upload: false,
        stalled_download: false,
    }
}

fn strategy(name: &str, conditions: Vec<ConditionSpec>) -> StrategyConfig {
    StrategyConfig {
        name: name.to_string(),
        filters: FilterConfig {
            all_categories: true,
            categories: vec![],
            excluded_categories: vec![],
            all_trackers: true,
            trackers: vec![],
            excluded_trackers: vec![],
            all_status: true,
            status: no_status(),
            excluded_status: no_status(),
        },
        conditions,
    }
}

fn task(strategies: Vec<StrategyConfig>) -> AutoremoveTask {
    AutoremoveTask {
        name: "task".to_string(),
        delete_data: false,
        strategies,
    }
}

fn names(candidates: &[DeleteCandidate]) -> Vec<String> {
    candidates.iter().map(|candidate| candidate.name.clone()).collect()
}

#[test]
fn delete_candidates_keep_first_matching_strategy() {
    let mut candidates = Vec::new();
    let sample = torrent("sample");
    let torrents = vec![torrent("sample")];

    record_delete_candidate(&mut candidates, &torrents, &sample, &sample, "first");
    record_delete_candidate(&mut candidates, &torrents, &sample, &sample, "second");

    let candidate = candidates
        .iter()
        .find(|candidate| candidate.hash == "hash-sample")
        .expect("candidate recorded");
    assert_eq!(candidates.len(), 1);
    assert_eq!(candidate.name, "sample");
    assert_eq!(candidate.strategy, "first");
}

#[test]
fn selected_torrent_brings_its_group() {
    let torrents = vec![
        with("a", 1.0, "/x"),
        with("b", 1.0, "/y"),
        with("c", 1.0, "/x"),
        with("d", 1.0, ""),
        with("e", 1.0, ""),
    ];
    let mut candidates = Vec::new();
    record_group(&mut candidates, &torrents, &torrents[2], "s");
    assert_eq!(names(&candidates), vec!["c", "a"]);
    assert!(candidates.iter().all(|one| one.group_primary == "c"
        && one.group_primary_hash == "hash-c"
        && one.cross_seeds_found == 1
        && one.strategy == "s"));
    record_group(&mut candidates, &torrents, &torrents[3], "t");
    assert_eq!(names(&candidates), vec!["c", "a", "d"]);
    assert_eq!(candidates[2].cross_seeds_found, 0);
    assert_eq!(count_cross_seeds(&torrents, &torrents[0]), 1);
    assert_eq!(count_cross_seeds(&torrents, &torrents[4]), 0);
}

#[test]
fn strategies_add_up_to_one_set() {
    let torrents = vec![
        with("a", 3.0, "/x"),
        with("b", 0.5, "/x"),
        with("c", 2.0, ""),
        with("d", 0.1, ""),
        with("e", 0.2, "/z"),
        with("f", 0.2, "/z"),
    ];
    let expression = match parse_expression("ratio < 0.15 or ratio > 2.5") {
        Ok(expression) => expression,
        Err(_) => panic!("expression parses"),
    };
    let task = task(vec![
        strategy("first", vec![ConditionSpec::Ratio(num(1.0))]),
        strategy("second", vec![ConditionSpec::Remove(expression)]),
    ]);
    let plan = match plan_task(&task, &status(), &vec![vec![None], vec![None]], &torrents, 1_000) {
        Ok(plan) => plan,
        Err(_) => panic!("task is planned"),
    };
    assert_eq!(names(&plan.candidates), vec!["a", "b", "c", "d"]);
    let strategies: Vec<&str> = plan.candidates.iter().map(|one| one.strategy.as_str()).collect();
    assert_eq!(strategies, vec!["first", "first", "first", "second"]);
    assert_eq!(plan.strategies[0].selected_primaries, 2);
    assert_eq!(plan.strategies[0].cross_seeds.cross_seed_groups, 1);
    assert_eq!(plan.strategies[0].cross_seeds.cross_seeds_found, 1);
    assert_eq!(plan.strategies[0].unique_candidates_added, 3);
    assert_eq!(plan.strategies[1].selected_primaries, 2);
    assert_eq!(plan.strategies[1].unique_candidates_added, 1);
    assert_eq!(plan.cross_seeds.cross_seed_groups, 2);
    assert_eq!(plan.cross_seeds.cross_seeds_found, 2);
}

#[test]
fn conditions_work_on_what_remains() {
    let torrents = vec![
        with("a", 3.0, ""),
        with("b", 2.0, ""),
        with("c", 0.5, ""),
        with("d", 0.4, ""),
    ];
    let strategy = strategy(
        "s",
        vec![
            ConditionSpec::Ratio(num(2.5)),
            ConditionSpec::MaximumNumber { limit: 2, action: SortAction::RemoveOldSeeds },
        ],
    );
    let selected = match run_strategy(&strategy, &status(), &vec![None, None], &torrents, 1_000) {
        Ok(selected) => selected,
        Err(_) => panic!("strategy runs"),
    };
    let names: Vec<&str> = selected.iter().map(|torrent| torrent.name.as_str()).collect();
    assert_eq!(names, vec!["a", "b"]);
}

#[test]
fn task_fails_at_the_first_condition_that_cannot_be_applied() {
    let torrents = vec![with("a", 3.0, "")];
    let space = |min_gib: f64| ConditionSpec::FreeSpace {
        min_gib: num(min_gib),
        path: "/ssd".to_string(),
        action: SortAction::RemoveOldSeeds,
    };
    let remote = ConditionSpec::RemoteFreeSpace {
        min_gib: num(1.0),
        path: "/ssd".to_string(),
        action: SortAction::RemoveOldSeeds,
    };
    let task = task(vec![
        strategy("first", vec![ConditionSpec::Nothing, space(1.0)]),
        strategy("second", vec![space(1.0), remote]),
    ]);
    let plan = plan_task(
        &task,
        &status(),
        &vec![vec![None, Some(5)], vec![Some(5), None]],
        &torrents,
        1_000,
    );
    match plan {
        Ok(_) => panic!("the task fails"),
        Err(error) => {
            assert_eq!((error.strategy, error.condition), (1, 1));
            assert_eq!(error.error, ConditionError::RemoteUnknown);
        }
    }
    let plan = plan_task(
        &task,
        &status(),
        &vec![vec![None, None], vec![Some(5), None]],
        &torrents,
        1_000,
    );
    match plan {
        Ok(_) => panic!("the task fails"),
        Err(error) => {
            assert_eq!((error.strategy, error.condition), (0, 1));
            assert_eq!(error.error, ConditionError::FilesystemUnknown);
        }
    }
}

#[test]
fn groups_are_counted_once() {
    let torrents = vec![
        with("a", 1.0, "/x"),
        with("b", 1.0, "/x"),
        with("c", 1.0, "/x"),
        with("d", 1.0, "/y"),
        with("e", 1.0, ""),
    ];
    let list: Vec<&Torrent> = torrents.iter().collect();
    let stats = cross_seed_stats(&torrents, &list);
    assert_eq!(stats.cross_seed_groups, 1);
    assert_eq!(stats.cross_seeds_found, 2);
}
