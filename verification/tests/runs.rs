use qb_tools::age::TorrentInfo;
use qb_tools::autoremove::{
    current_unix_timestamp_i64, space_paths, spread_space, start_autoremove_run,
    validate_selected_task, AutoremoveAction, AutoremoveEnding, AutoremoveEvent, AutoremovePhase,
    AutoremoveRun, AutoremoveSetupError,
};
use qb_tools::condition::{ConditionError, ConditionSpec, SortAction};
use qb_tools::config::{AutoremoveConfig, ClientConfig, ConfigError};
use qb_tools::filter::{FilterConfig, StatusSelector};
use qb_tools::low_space::FilesystemUsage;
use qb_tools::move_after_days::{AgeAction, AgeEvent, AgePhase, AgeRun};
use qb_tools::move_on_low_space::{
    LowSpaceAction, LowSpaceEvent, LowSpacePhase, LowSpaceRun,
};
use qb_tools::number::Number;
use qb_tools::rules::{RuleConfig, RuleFault};
use qb_tools::setup::{Ending, SetupError};
use qb_tools::task::{AutoremoveTask, StrategyConfig};
use qb_tools::torrent::{
    ClientStatus, ListedTorrent, QbitTorrentProperties, QbitTorrentSummary,
};
use qb_tools::{
    run_autoremove, run_autoremove_daemon, run_move_after_days, run_move_after_days_daemon,
    run_move_on_low_space, run_move_on_low_space_daemon, DEFAULT_AUTOREMOVE_INTERVAL_SECS,
    DEFAULT_DAEMON_INTERVAL_SECS,
};

const DAY: i64 = 86_400;

fn num(value: f64) -> Number {
    Number { bits: value.to_bits() }
}

fn rule(source: &str, target: &str, percent: Option<f64>) -> RuleConfig {
    RuleConfig {
        source_path: source.to_string(),
        target_path: target.to_string(),
        min_days_since_completion: 7,
        min_free_space_percent: percent.map(num),
    }
}

fn torrent(name: &str, save_path: &str, completion_on: i64) -> TorrentInfo {
    TorrentInfo {
        hash: format!("hash-{name}"),
        name: name.to_string(),
        progress: num(1.0),
        completion_on,
        save_path: save_path.to_string(),
        content_path: String::new(),
        size: 100,
        auto_tmm: false,
        state: String::new(),
    }
}

fn managed(mut torrent: TorrentInfo) -> TorrentInfo {
    torrent.auto_tmm = true;
    torrent
}

fn age_run(dry_run: bool) -> AgeRun {
    match run_move_after_days(vec![rule("/ssd", "/hdd", None)], dry_run) {
        Ok(run) => run,
        Err(_) => panic!("run begins"),
    }
}

fn listed(run: &mut AgeRun, torrents: Vec<TorrentInfo>) {
    assert!(matches!(run.action(), AgeAction::Login));
    run.handle(AgeEvent::Done);
    assert!(matches!(run.action(), AgeAction::ReadClock));
    run.handle(AgeEvent::Clock(100 * DAY as u64));
    assert!(matches!(run.action(), AgeAction::ListTorrents));
    run.handle(AgeEvent::Torrents(torrents));
}

#[test]
fn daemons_pause_ten_minutes_by_default() {
    assert_eq!(DEFAULT_AUTOREMOVE_INTERVAL_SECS, 600);
    assert_eq!(DEFAULT_DAEMON_INTERVAL_SECS, 600);
}

#[test]
fn due_torrents_are_moved_after_automatic_management_ends() {
    let mut run = age_run(false);
    listed(
        &mut run,
        vec![
            torrent("young", "/ssd/a", 99 * DAY),
            managed(torrent("managed", "/ssd/b", 10 * DAY)),
            torrent("plain", "/ssd/c", 10 * DAY),
            managed(torrent("stuck", "/ssd/d", 10 * DAY)),
            torrent("refused", "/ssd/e", 10 * DAY),
        ],
    );
    assert!(matches!(
        run.action(),
        AgeAction::DisableAutoManagement { hash } if hash == "hash-managed"
    ));
    run.handle(AgeEvent::Done);
    assert!(matches!(
        run.action(),
        AgeAction::SetLocation { hash, location } if hash == "hash-managed" && location == "/hdd/b"
    ));
    run.handle(AgeEvent::Done);
    assert!(matches!(
        run.action(),
        AgeAction::SetLocation { hash, location } if hash == "hash-plain" && location == "/hdd/c"
    ));
    run.handle(AgeEvent::Done);
    assert!(matches!(
        run.action(),
        AgeAction::DisableAutoManagement { hash } if hash == "hash-stuck"
    ));
    run.handle(AgeEvent::Failed);
    assert!(matches!(
        run.action(),
        AgeAction::SetLocation { hash, .. } if hash == "hash-refused"
    ));
    run.handle(AgeEvent::Failed);
    assert!(matches!(run.action(), AgeAction::Finish(Ending::Failures(2))));
    assert_eq!(run.summary.checked, 5);
    assert_eq!(run.summary.skipped, 1);
    assert_eq!(run.summary.eligible, 4);
    assert_eq!(run.summary.moved, 2);
    assert_eq!(run.summary.failed, 2);
    assert_eq!(run.summary.dry_run_matches, 0);
}

#[test]
fn whole_group_is_moved_to_one_destination() {
    let mut run = age_run(false);
    let mut young = torrent("young", "/ssd/a", 99 * DAY);
    young.content_path = "/ssd/a/film".to_string();
    let mut old = torrent("old", "/ssd/a", 10 * DAY);
    old.content_path = "/ssd/a/film".to_string();
    listed(&mut run, vec![young, old]);
    for name in ["hash-young", "hash-old"] {
        assert!(matches!(
            run.action(),
            AgeAction::SetLocation { hash, location } if hash == name && location == "/hdd/a"
        ));
        run.handle(AgeEvent::Done);
    }
    assert!(matches!(run.action(), AgeAction::Finish(Ending::Success)));
}

#[test]
fn dry_run_of_moves_asks_for_no_change() {
    let mut run = age_run(true);
    listed(
        &mut run,
        vec![
            managed(torrent("a", "/ssd/a", 10 * DAY)),
            torrent("b", "/elsewhere", 10 * DAY),
        ],
    );
    assert!(matches!(run.action(), AgeAction::Finish(Ending::Success)));
    assert_eq!(run.summary.dry_run_matches, 1);
    assert_eq!(run.summary.skipped, 1);
}

#[test]
fn failed_login_aborts_a_run_and_only_delays_a_daemon() {
    let mut run = age_run(false);
    run.handle(AgeEvent::Failed);
    assert!(matches!(run.action(), AgeAction::Finish(Ending::Aborted)));
    run.handle(AgeEvent::Woken);
    assert_eq!(run.phase, AgePhase::Aborted);

    let mut run = match run_move_after_days_daemon(vec![rule("/ssd", "/hdd", None)], false, 30) {
        Ok(run) => run,
        Err(_) => panic!("run begins"),
    };
    assert_eq!(run.cycle, 1);
    run.handle(AgeEvent::Failed);
    assert!(matches!(run.action(), AgeAction::Sleep(30)));
    run.handle(AgeEvent::Woken);
    assert_eq!(run.cycle, 2);
    listed(&mut run, vec![torrent("a", "/ssd/a", 10 * DAY)]);
    run.handle(AgeEvent::Failed);
    assert_eq!(run.summary.failed, 1);
    assert!(matches!(run.action(), AgeAction::Sleep(30)));
    run.handle(AgeEvent::Woken);
    assert_eq!(run.summary.failed, 0);
    assert!(matches!(run.action(), AgeAction::Login));
}

#[test]
fn answers_that_are_not_waited_for_change_nothing() {
    let mut run = age_run(false);
    run.handle(AgeEvent::Clock(5));
    run.handle(AgeEvent::Woken);
    assert_eq!(run.phase, AgePhase::LoggingIn);
    assert_eq!(run.now, 0);
}

#[test]
fn runs_do_not_begin_without_rules_or_pause() {
    assert!(matches!(run_move_after_days(vec![], false), Err(SetupError::NoRules)));
    assert!(matches!(
        run_move_after_days(vec![rule("x", "/y", None)], false),
        Err(SetupError::Rule(error)) if error.fault == RuleFault::SourceNotAbsolute
    ));
    assert!(matches!(
        run_move_after_days_daemon(vec![], false, 0),
        Err(SetupError::ZeroInterval)
    ));
    assert!(matches!(
        run_move_on_low_space(vec![rule("/ssd", "/hdd", None)], false),
        Err(SetupError::NoLowSpaceRules)
    ));
    assert!(matches!(run_move_on_low_space(vec![], false), Err(SetupError::NoRules)));
    assert!(matches!(
        run_move_on_low_space_daemon(vec![rule("/ssd", "/hdd", Some(5.0))], false, 0),
        Err(SetupError::ZeroInterval)
    ));
    assert!(matches!(
        run_move_on_low_space(vec![rule("/ssd", "/ssd", Some(5.0))], false),
        Err(SetupError::Rule(_))
    ));
}

fn low_space_run(dry_run: bool) -> LowSpaceRun {
    match run_move_on_low_space(
        vec![
            rule("/first", "/hdd/first", None),
            rule("/ssd", "/hdd", Some(10.0)),
        ],
        dry_run,
    ) {
        Ok(run) => run,
        Err(_) => panic!("run begins"),
    }
}

fn usage(available_bytes: u64) -> LowSpaceEvent {
    LowSpaceEvent::Usage(FilesystemUsage {
        total_bytes: 10_000,
        available_bytes,
    })
}

#[test]
fn space_is_freed_until_there_is_enough() {
    let mut run = low_space_run(false);
    assert!(matches!(run.action(), LowSpaceAction::Login));
    run.handle(LowSpaceEvent::Done);
    assert!(matches!(run.action(), LowSpaceAction::MeasureSpace { path } if path == "/ssd"));
    run.handle(usage(850));
    assert_eq!(run.deficit_bytes, 150);
    assert!(matches!(run.action(), LowSpaceAction::ListTorrents));
    let list = || {
        vec![
            torrent("newest", "/ssd/c", 30),
            managed(torrent("oldest", "/ssd/a", 10)),
            torrent("older", "/ssd/b", 20),
        ]
    };
    run.handle(LowSpaceEvent::Torrents(list()));
    assert!(matches!(
        run.action(),
        LowSpaceAction::DisableAutoManagement { hash } if hash == "hash-oldest"
    ));
    run.handle(LowSpaceEvent::Done);
    assert!(matches!(
        run.action(),
        LowSpaceAction::SetLocation { hash, location } if hash == "hash-oldest" && location == "/hdd/a"
    ));
    run.handle(LowSpaceEvent::Done);
    assert!(matches!(
        run.action(),
        LowSpaceAction::SetLocation { hash, .. } if hash == "hash-older"
    ));
    run.handle(LowSpaceEvent::Failed);
    assert!(matches!(
        run.action(),
        LowSpaceAction::ListByHashes { hashes } if hashes == vec!["hash-oldest".to_string()]
    ));
    run.handle(LowSpaceEvent::Torrents(vec![torrent("oldest", "/ssd/a", 10)]));
    assert!(matches!(run.action(), LowSpaceAction::Sleep(5)));
    run.handle(LowSpaceEvent::Woken);
    run.handle(LowSpaceEvent::Torrents(vec![torrent("oldest", "/hdd/a", 10)]));
    assert!(matches!(run.action(), LowSpaceAction::MeasureSpace { path } if path == "/ssd"));
    run.handle(usage(950));
    run.handle(LowSpaceEvent::Torrents(vec![torrent("older", "/ssd/b", 20)]));
    run.handle(LowSpaceEvent::Done);
    run.handle(LowSpaceEvent::Torrents(vec![]));
    run.handle(usage(1_000));
    assert!(matches!(run.action(), LowSpaceAction::Finish(Ending::Failures(1))));
    assert_eq!(run.summary.rules_checked, 1);
    assert_eq!(run.summary.rules_triggered, 1);
    assert_eq!(run.summary.batches_planned, 2);
    assert_eq!(run.summary.torrents_planned, 3);
    assert_eq!(run.summary.torrents_queued, 2);
    assert_eq!(run.summary.failed, 1);
}

#[test]
fn rule_is_left_where_nothing_can_be_moved() {
    let mut run = low_space_run(false);
    run.handle(LowSpaceEvent::Done);
    run.handle(usage(0));
    run.handle(LowSpaceEvent::Torrents(vec![torrent("x", "/first/a", 10)]));
    assert!(matches!(run.action(), LowSpaceAction::Finish(Ending::Success)));
    assert_eq!(run.summary.rules_triggered, 1);
    assert_eq!(run.summary.batches_planned, 0);

    let mut run = low_space_run(false);
    run.handle(LowSpaceEvent::Done);
    run.handle(usage(900));
    run.handle(LowSpaceEvent::Torrents(vec![torrent("x", "/ssd/a", 10)]));
    run.handle(LowSpaceEvent::Failed);
    assert!(matches!(run.action(), LowSpaceAction::Finish(Ending::Failures(1))));

    let mut run = low_space_run(false);
    run.handle(LowSpaceEvent::Done);
    run.handle(usage(5_000));
    assert!(matches!(run.action(), LowSpaceAction::Finish(Ending::Success)));
    assert_eq!(run.summary.rules_triggered, 0);
}

#[test]
fn dry_run_of_low_space_asks_for_no_change() {
    let mut run = low_space_run(true);
    run.handle(LowSpaceEvent::Done);
    run.handle(usage(0));
    let mut one = torrent("one", "/ssd/a", 10);
    one.content_path = "/ssd/a/film".to_string();
    let mut two = managed(torrent("two", "/ssd/a", 20));
    two.content_path = "/ssd/a/film".to_string();
    run.handle(LowSpaceEvent::Torrents(vec![one, two]));
    assert!(matches!(run.action(), LowSpaceAction::Finish(Ending::Success)));
    assert_eq!(run.summary.torrents_planned, 2);
    assert_eq!(run.moves.len(), 2);
    assert_eq!(run.moves[1].destination, "/hdd/a");
}

#[test]
fn low_space_run_is_aborted_by_what_it_needs() {
    for answers in 0..3 {
        let mut run = low_space_run(false);
        if answers > 0 {
            run.handle(LowSpaceEvent::Done);
        }
        if answers > 1 {
            run.handle(usage(0));
        }
        run.handle(LowSpaceEvent::Failed);
        assert!(matches!(run.action(), LowSpaceAction::Finish(Ending::Aborted)));
    }
    let mut run = match run_move_on_low_space_daemon(
        vec![rule("/ssd", "/hdd", Some(10.0))],
        false,
        9,
    ) {
        Ok(run) => run,
        Err(_) => panic!("run begins"),
    };
    run.handle(LowSpaceEvent::Failed);
    assert!(matches!(run.action(), LowSpaceAction::Sleep(9)));
    run.handle(LowSpaceEvent::Woken);
    assert_eq!(run.phase, LowSpacePhase::LoggingIn);
    assert_eq!(run.cycle, 2);
}

fn no_status() -> StatusSelector {
    StatusSelector {
        statuses: vec![],
        stalled_upload: false,
        stalled_download: false,
    }
}

fn strategy(name: &str, conditions: Vec<ConditionSpec>) -> StrategyConfig {
    StrategyConfig {
        name: name.to_string(),
        filters: FilterConfig {
            all_categories: true,
            categories: vec![],
            excluded_categories: vec![],
            all_trackers: true,
            trackers: vec![],
            excluded_trackers: vec![],
            all_status: true,
            status: no_status(),
            excluded_status: no_status(),
        },
        conditions,
    }
}

fn task(name: &str, strategies: Vec<StrategyConfig>) -> AutoremoveTask {
    AutoremoveTask {
        name: name.to_string(),
        delete_data: true,
        strategies,
    }
}

fn config(tasks: Vec<AutoremoveTask>) -> AutoremoveConfig {
    AutoremoveConfig {
        client: ClientConfig {
            host: "http://127.0.0.1:8080".to_string(),
            username: "admin".to_string(),
            password: "secret".to_string(),
        },
        tasks,
    }
}

fn client_status() -> AutoremoveEvent {
    AutoremoveEvent::Status(ClientStatus {
        download_speed: 1,
        total_downloaded: 2,
        upload_speed: 3,
        total_uploaded: 4,
        free_space_on_disk: None,
    })
}

fn report(name: &str, ratio: f64, content_path: &str) -> ListedTorrent {
    ListedTorrent {
        summary: QbitTorrentSummary {
            hash: format!("hash-{name}"),
            name: name.to_string(),
            category: String::new(),
            state: "uploading".to_string(),
            content_path: content_path.to_string(),
            size: 100,
            ratio: num(ratio),
            progress: num(1.0),
            last_activity: None,
        },
        properties: QbitTorrentProperties {
            total_uploaded: 0,
            total_downloaded: 0,
            addition_date: 0,
            seeding_time: 0,
            downloading_time: 0,
            up_speed: 0,
            dl_speed: 0,
            seeds_total: 0,
            seeds: 0,
            peers_total: 0,
            peers: 0,
            up_speed_avg: 0,
            dl_speed_avg: 0,
        },
        trackers: vec![],
    }
}

fn space(path: &str) -> ConditionSpec {
    ConditionSpec::FreeSpace {
        min_gib: num(1.0),
        path: path.to_string(),
        action: SortAction::RemoveOldSeeds,
    }
}

#[test]
fn run_all_tasks_continues_after_failures() {
    let tasks = vec![
        AutoremoveTask {
            name: "first".to_string(),
            delete_data: false,
            strategies: Vec::new(),
        },
        AutoremoveTask {
            name: "second".to_string(),
            delete_data: false,
            strategies: Vec::new(),
        },
    ];
    let mut run = start_autoremove_run(config(tasks), false, None, None);
    let mut seen = Vec::new();

    run.handle(AutoremoveEvent::Done);
    seen.push(run.config.tasks[run.at].name.clone());
    assert!(matches!(run.action(), AutoremoveAction::ReadStatus));
    run.handle(AutoremoveEvent::Failed);
    seen.push(run.config.tasks[run.at].name.clone());
    assert!(matches!(run.action(), AutoremoveAction::ReadStatus));
    run.handle(client_status());
    run.handle(AutoremoveEvent::Listed(vec![], 1_000));
    run.handle(AutoremoveEvent::Clock(1_000));

    assert_eq!(run.failed_tasks, 1);
    assert_eq!(seen, vec!["first".to_string(), "second".to_string()]);
    assert!(matches!(
        run.action(),
        AutoremoveAction::Finish(AutoremoveEnding::Completed(1))
    ));
}

fn started(run: &mut AutoremoveRun, torrents: Vec<ListedTorrent>) {
    assert!(matches!(run.action(), AutoremoveAction::Login));
    run.handle(AutoremoveEvent::Done);
    assert!(matches!(run.action(), AutoremoveAction::ReadStatus));
    run.handle(client_status());
    assert!(matches!(run.action(), AutoremoveAction::ListTorrents));
    run.handle(AutoremoveEvent::Listed(torrents, 1_000));
    assert!(matches!(run.action(), AutoremoveAction::ReadClock));
    run.handle(AutoremoveEvent::Clock(1_000));
}

#[test]
fn selected_groups_are_deleted_at_once() {
    let tasks = vec![task(
        "task",
        vec![strategy("s", vec![ConditionSpec::Ratio(num(1.0)), space("/ssd")])],
    )];
    let mut run = start_autoremove_run(config(tasks), false, None, None);
    started(
        &mut run,
        vec![report("a", 0.5, "/x"), report("b", 2.0, "/x"), report("c", 0.5, "")],
    );
    assert!(matches!(run.action(), AutoremoveAction::MeasureSpace { path } if path == "/ssd"));
    run.handle(AutoremoveEvent::Available(2_000_000_000));
    match run.action() {
        AutoremoveAction::Delete { hashes, delete_data } => {
            assert_eq!(hashes, vec!["hash-b".to_string(), "hash-a".to_string()]);
            assert!(delete_data);
        }
        _ => panic!("torrents are deleted"),
    }
    run.handle(AutoremoveEvent::Done);
    assert!(matches!(
        run.action(),
        AutoremoveAction::Finish(AutoremoveEnding::Completed(0))
    ));
}

#[test]
fn dry_run_deletes_nothing() {
    let tasks = vec![task("task", vec![strategy("s", vec![ConditionSpec::Ratio(num(1.0))])])];
    let mut run = start_autoremove_run(config(tasks), true, None, None);
    started(&mut run, vec![report("b", 2.0, "/x")]);
    assert!(matches!(
        run.action(),
        AutoremoveAction::Finish(AutoremoveEnding::Completed(0))
    ));
    assert_eq!(run.plan.map(|plan| plan.candidates.len()), Some(1));
}

#[test]
fn unknown_space_fails_the_task() {
    let tasks = vec![task("task", vec![strategy("s", vec![space("/a"), space("/b")])])];
    let mut run = start_autoremove_run(config(tasks), false, Some("task".to_string()), None);
    started(&mut run, vec![report("b", 2.0, "")]);
    run.handle(AutoremoveEvent::Available(0));
    assert!(matches!(run.action(), AutoremoveAction::MeasureSpace { path } if path == "/b"));
    run.handle(AutoremoveEvent::Failed);
    assert!(matches!(
        run.action(),
        AutoremoveAction::Finish(AutoremoveEnding::TaskFailed)
    ));
    let error = run.plan_error.expect("an error");
    assert_eq!((error.strategy, error.condition), (0, 1));
    assert_eq!(error.error, ConditionError::FilesystemUnknown);
}

#[test]
fn one_task_is_run_if_it_is_named() {
    let tasks = || {
        vec![
            task("one", vec![strategy("s", vec![ConditionSpec::Ratio(num(9.0))])]),
            task("two", vec![strategy("s", vec![ConditionSpec::Ratio(num(1.0))])]),
        ]
    };
    let mut run = start_autoremove_run(config(tasks()), false, Some("two".to_string()), None);
    started(&mut run, vec![report("b", 2.0, "")]);
    assert_eq!(run.at, 1);
    run.handle(AutoremoveEvent::Failed);
    assert!(matches!(
        run.action(),
        AutoremoveAction::Finish(AutoremoveEnding::TaskFailed)
    ));

    let mut run = start_autoremove_run(config(tasks()), false, Some("three".to_string()), None);
    run.handle(AutoremoveEvent::Done);
    assert!(matches!(
        run.action(),
        AutoremoveAction::Finish(AutoremoveEnding::NoSuchTask)
    ));
    assert!(validate_selected_task(&config(tasks()), None));
    assert!(validate_selected_task(&config(tasks()), Some("one")));
    assert!(!validate_selected_task(&config(tasks()), Some("One")));
}

#[test]
fn removal_daemon_goes_on_after_failures() {
    let tasks = vec![task("task", vec![strategy("s", vec![])])];
    let mut run = start_autoremove_run(config(tasks), false, None, Some(60));
    run.handle(AutoremoveEvent::Failed);
    assert_eq!(run.phase, AutoremovePhase::LoginFailed);
    assert!(matches!(run.action(), AutoremoveAction::Sleep(60)));
    run.handle(AutoremoveEvent::Woken);
    assert_eq!(run.cycle, 2);
    started(&mut run, vec![]);
    assert!(matches!(run.action(), AutoremoveAction::Sleep(60)));
}

#[test]
fn failed_deletion_fails_the_task() {
    let tasks = vec![
        task("one", vec![strategy("s", vec![ConditionSpec::Ratio(num(1.0))])]),
        task("two", vec![strategy("s", vec![])]),
    ];
    let mut run = start_autoremove_run(config(tasks), false, None, None);
    started(&mut run, vec![report("b", 2.0, "")]);
    run.handle(AutoremoveEvent::Failed);
    assert_eq!((run.at, run.failed_tasks), (1, 1));
    assert_eq!(run.phase, AutoremovePhase::ReadingStatus);
    run.handle(client_status());
    run.handle(AutoremoveEvent::Listed(vec![], 0));
    run.handle(AutoremoveEvent::Clock(u64::MAX));
    assert_eq!(run.failed_tasks, 2);
    assert_eq!(current_unix_timestamp_i64(5), Some(5));
    assert_eq!(current_unix_timestamp_i64(i64::MAX as u64 + 1), None);
}

const CONFIG: &str = "
[client]
host = \"http://127.0.0.1:8080\"
username = \"admin\"
password = \"$(PASSWORD)\"
[[tasks]]
name = \"cleanup\"
[[tasks.strategies]]
name = \"s\"
ratio = 1
";

#[test]
fn removal_runs_begin_with_a_configuration() {
    let run = match run_autoremove(CONFIG, true, None) {
        Ok(run) => run,
        Err(_) => panic!("run begins"),
    };
    assert_eq!(run.config.tasks.len(), 1);
    assert_eq!(run.config.client.password, "$(PASSWORD)");
    assert!(run.dry_run);
    assert!(matches!(
        run_autoremove("", true, None),
        Err(AutoremoveSetupError::Config(ConfigError::NoClient))
    ));
    assert!(matches!(
        run_autoremove_daemon(CONFIG, true, None, 0),
        Err(AutoremoveSetupError::ZeroInterval)
    ));
    assert!(matches!(
        run_autoremove_daemon(CONFIG, true, Some("other".to_string()), 5),
        Err(AutoremoveSetupError::NoSuchTask)
    ));
    assert!(matches!(
        run_autoremove_daemon("x", true, None, 5),
        Err(AutoremoveSetupError::Config(ConfigError::Syntax(_)))
    ));
    let run = match run_autoremove_daemon(CONFIG, false, Some("cleanup".to_string()), 5) {
        Ok(run) => run,
        Err(_) => panic!("run begins"),
    };
    assert_eq!(run.interval_secs, Some(5));
    assert_eq!(run.selected_task, Some("cleanup".to_string()));
}

#[test]
fn space_is_spread_over_the_conditions() {
    let strategies = vec![
        strategy("a", vec![ConditionSpec::Nothing, space("/x"), space("/y")]),
        strategy("b", vec![]),
        strategy("c", vec![space("/z")]),
    ];
    assert_eq!(space_paths(&strategies), vec!["/x", "/y", "/z"]);
    assert_eq!(
        spread_space(&strategies, &vec![Some(1), None, Some(3)]),
        vec![vec![None, Some(1), None], vec![], vec![Some(3)]]
    );
}
