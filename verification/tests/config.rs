use qb_tools::condition::{ConditionSpec, LastActivityValue, SortAction};
use qb_tools::config::{
    load_config, parse_last_activity, parse_sort_action, parse_status_selector, parse_tasks,
    referenced_variable, resolve_env, AutoremoveConfig, ConfigError,
};
use qb_tools::document::{read_document, ConfigEntry, ConfigItem};
use qb_tools::expression::ExpressionError;
use qb_tools::number::Number;
use qb_tools::task::StrategyConfig;
use qb_tools::torrent::TorrentStatus;

fn root(text: &str) -> Vec<ConfigEntry> {
    read_document(text).expect("valid document")
}

#[test]
fn parses_strategy_condition_order_from_toml() {
    let document = root(
        r#"
[client]
host = "http://127.0.0.1:8080"
username = "admin"
password = "secret"

[[tasks]]
name = "cleanup"

  [[tasks.strategies]]
  name = "ordered"
  categories = "IPT"
  ratio = 1
  remove = "seeding_time > 10"
  maximum_number = { limit = 5, action = "remove-old-seeds" }
"#,
    );

    let tasks = match parse_tasks(&document) {
        Ok(tasks) => tasks,
        Err(_) => panic!("tasks parse"),
    };
    let strategy = &tasks[0].strategies[0];
    assert!(matches!(strategy.conditions[0], ConditionSpec::Ratio(_)));
    assert!(matches!(strategy.conditions[1], ConditionSpec::Remove(_)));
    assert!(matches!(
        strategy.conditions[2],
        ConditionSpec::MaximumNumber { .. }
    ));
}

#[test]
fn status_selector_understands_stalled_tokens() {
    let selector = match parse_status_selector(
        &ConfigItem::Array(vec![
            ConfigItem::Text("Uploading".to_string()),
            ConfigItem::Text("StalledDownload".to_string()),
        ]),
        "status",
    ) {
        Ok(selector) => selector,
        Err(_) => panic!("selector parses"),
    };

    assert!(selector.statuses.contains(&TorrentStatus::Uploading));
    assert!(selector.stalled_download);
}

#[test]
fn task_client_values_support_env_substitution() {
    let key = "QB_AUTOREMOVE_TEST_SECRET";
    let expected = "supersecret";
    let value = format!("$({key})");
    assert_eq!(referenced_variable(&value), Some(key.to_string()));
    assert_eq!(resolve_env(value, Some(expected.to_string())), expected);
    assert_eq!(referenced_variable("plain"), None);
    assert_eq!(resolve_env("plain".to_string(), Some(expected.to_string())), "plain");
}

#[test]
fn variables_that_are_not_set_stay_as_they_are_written() {
    assert_eq!(resolve_env("$(HOME)".to_string(), None), "$(HOME)");
    for text in ["", "$(", "$)", "$(HOME", "HOME)", "x$(HOME)", "$(HOME) "] {
        assert_eq!(referenced_variable(text), None, "{text}");
    }
    assert_eq!(referenced_variable("$()"), Some(String::new()));
    assert_eq!(referenced_variable("$(a)b)"), Some("a)b".to_string()));
}

const CLIENT: &str = "
[client]
host = \"http://127.0.0.1:8080\"
username = \"admin\"
password = \"secret\"
";

fn load(tasks: &str) -> Result<AutoremoveConfig, ConfigError> {
    load_config(&format!("{CLIENT}{tasks}"))
}

fn strategy(entries: &str) -> Result<StrategyConfig, ConfigError> {
    let text = format!("[[tasks]]\nname = \"t\"\n[[tasks.strategies]]\nname = \"s\"\n{entries}\n");
    load(&text).map(|mut config| config.tasks.remove(0).strategies.remove(0))
}

fn fault(entries: &str) -> ConfigError {
    match strategy(entries) {
        Ok(_) => panic!("strategy is turned down: {entries}"),
        Err(error) => error,
    }
}

fn read(entries: &str) -> StrategyConfig {
    match strategy(entries) {
        Ok(strategy) => strategy,
        Err(_) => panic!("strategy parses: {entries}"),
    }
}

#[test]
fn configuration_keeps_tasks_and_strategies_in_order() {
    let config = match load(
        r#"
[[tasks]]
name = "one"
delete_data = true
[[tasks.strategies]]
name = "a"
[[tasks.strategies]]
name = "b"

[[tasks]]
name = "two"
[[tasks.strategies]]
name = "a"
"#,
    ) {
        Ok(config) => config,
        Err(_) => panic!("configuration parses"),
    };
    assert_eq!(config.client.host, "http://127.0.0.1:8080");
    assert_eq!(config.client.username, "admin");
    assert_eq!(config.client.password, "secret");
    assert_eq!(config.tasks.len(), 2);
    assert_eq!(config.tasks[0].name, "one");
    assert!(config.tasks[0].delete_data);
    assert_eq!(config.tasks[0].strategies[1].name, "b");
    assert!(!config.tasks[1].delete_data);
}

#[test]
fn all_conditions_are_read() {
    let strategy = read(
        r#"
nothing = 0
ratio = 1.5
create_time = 2
downloading_time = 3
seeding_time = 4
max_download = 5
max_downloadspeed = 6
min_uploadspeed = 7
max_average_downloadspeed = 8
min_average_uploadspeed = 9
max_size = 10
max_seeder = 11
max_upload = 12
min_leecher = 13
max_connected_seeder = 14
min_connected_leecher = 15
last_activity = "NEVER"
max_progress = 16
upload_ratio = 17
seed_size = { limit = 18, action = "Remove-New-Seeds" }
maximum_number = { limit = 19.9, action = "remove-big-seeds" }
free_space = { min = 20, path = "/ssd", action = "remove-small-seeds" }
remote_free_space = { min = 21, path = "/hdd", action = "remove-active-seeds" }
remove = "ratio > 1"
other = "is no condition"
"#,
    );
    let conditions = &strategy.conditions;
    assert_eq!(conditions.len(), 24);
    let is = |number: &Number, value: f64| f64::from_bits(number.bits) == value;
    assert!(matches!(conditions[0], ConditionSpec::Nothing));
    assert!(matches!(&conditions[1], ConditionSpec::Ratio(n) if is(n, 1.5)));
    assert!(matches!(&conditions[2], ConditionSpec::CreateTime(n) if is(n, 2.0)));
    assert!(matches!(&conditions[3], ConditionSpec::DownloadingTime(n) if is(n, 3.0)));
    assert!(matches!(&conditions[4], ConditionSpec::SeedingTime(n) if is(n, 4.0)));
    assert!(matches!(&conditions[5], ConditionSpec::MaxDownload(n) if is(n, 5.0)));
    assert!(matches!(&conditions[6], ConditionSpec::MaxDownloadSpeed(n) if is(n, 6.0)));
    assert!(matches!(&conditions[7], ConditionSpec::MinUploadSpeed(n) if is(n, 7.0)));
    assert!(matches!(&conditions[8], ConditionSpec::MaxAverageDownloadSpeed(n) if is(n, 8.0)));
    assert!(matches!(&conditions[9], ConditionSpec::MinAverageUploadSpeed(n) if is(n, 9.0)));
    assert!(matches!(&conditions[10], ConditionSpec::MaxSize(n) if is(n, 10.0)));
    assert!(matches!(&conditions[11], ConditionSpec::MaxSeeder(n) if is(n, 11.0)));
    assert!(matches!(&conditions[12], ConditionSpec::MaxUpload(n) if is(n, 12.0)));
    assert!(matches!(&conditions[13], ConditionSpec::MinLeecher(n) if is(n, 13.0)));
    assert!(matches!(&conditions[14], ConditionSpec::MaxConnectedSeeder(n) if is(n, 14.0)));
    assert!(matches!(&conditions[15], ConditionSpec::MinConnectedLeecher(n) if is(n, 15.0)));
    assert!(matches!(conditions[16], ConditionSpec::LastActivity(LastActivityValue::Never)));
    assert!(matches!(&conditions[17], ConditionSpec::MaxProgress(n) if is(n, 16.0)));
    assert!(matches!(&conditions[18], ConditionSpec::UploadRatio(n) if is(n, 17.0)));
    assert!(matches!(
        &conditions[19],
        ConditionSpec::SeedSize { limit_gib, action: SortAction::RemoveNewSeeds } if is(limit_gib, 18.0)
    ));
    assert!(matches!(
        conditions[20],
        ConditionSpec::MaximumNumber { limit: 19, action: SortAction::RemoveBigSeeds }
    ));
    assert!(matches!(
        &conditions[21],
        ConditionSpec::FreeSpace { min_gib, path, action: SortAction::RemoveSmallSeeds }
            if is(min_gib, 20.0) && path == "/ssd"
    ));
    assert!(matches!(
        &conditions[22],
        ConditionSpec::RemoteFreeSpace { min_gib, path, action: SortAction::RemoveActiveSeeds }
            if is(min_gib, 21.0) && path == "/hdd"
    ));
    assert!(matches!(conditions[23], ConditionSpec::Remove(_)));
}

#[test]
fn filters_that_are_left_out_take_all() {
    let strategy = read("");
    assert!(strategy.filters.all_categories);
    assert!(strategy.filters.all_trackers);
    assert!(strategy.filters.all_status);
    let strategy = read(
        r#"
categories = "IPT"
excluded_categories = ["A", "B"]
trackers = ["x", "y"]
excluded_trackers = "z"
status = ["Uploading", "StalledUpload", "nonsense"]
excluded_status = "Paused"
all_trackers = true
"#,
    );
    let filters = strategy.filters;
    assert!(!filters.all_categories);
    assert_eq!(filters.categories, vec!["IPT".to_string()]);
    assert_eq!(filters.excluded_categories, vec!["A".to_string(), "B".to_string()]);
    assert!(filters.all_trackers);
    assert_eq!(filters.trackers, vec!["x".to_string(), "y".to_string()]);
    assert_eq!(filters.excluded_trackers, vec!["z".to_string()]);
    assert!(!filters.all_status);
    assert_eq!(filters.status.statuses, vec![TorrentStatus::Uploading]);
    assert!(filters.status.stalled_upload);
    assert!(!filters.status.stalled_download);
    assert_eq!(filters.excluded_status.statuses, vec![TorrentStatus::Paused]);
}

#[test]
fn faulty_entries_are_turned_down() {
    assert!(matches!(fault("ratio = \"x\""), ConfigError::NotNumber(name) if name == "ratio"));
    assert!(matches!(fault("all_status = 1"), ConfigError::NotBoolean(name) if name == "all_status"));
    assert!(matches!(fault("status = 1"), ConfigError::NotTexts(name) if name == "status"));
    assert!(matches!(fault("trackers = [1]"), ConfigError::NotOnlyTexts(name) if name == "trackers"));
    assert!(matches!(fault("seed_size = 1"), ConfigError::NotTable(name) if name == "seed_size"));
    assert!(matches!(
        fault("seed_size = { action = \"remove-old-seeds\" }"),
        ConfigError::Missing(name) if name == "seed_size.limit"
    ));
    assert!(matches!(
        fault("free_space = { min = 1, path = 2, action = \"remove-old-seeds\" }"),
        ConfigError::NotText(name) if name == "free_space.path"
    ));
    assert!(matches!(
        fault("remote_free_space = { min = 1, path = \"/\" }"),
        ConfigError::Missing(name) if name == "remote_free_space.action"
    ));
    assert!(matches!(
        fault("maximum_number = { limit = -1, action = \"remove-old-seeds\" }"),
        ConfigError::NegativeLimit
    ));
    assert!(matches!(
        fault("maximum_number = { limit = nan, action = \"remove-old-seeds\" }"),
        ConfigError::NegativeLimit
    ));
    assert!(matches!(
        fault("maximum_number = { limit = 1, action = \"Remove\" }"),
        ConfigError::NoSuchAction(name) if name == "Remove"
    ));
    assert!(matches!(fault("last_activity = \"soon\""), ConfigError::NotNever));
    assert!(matches!(fault("last_activity = true"), ConfigError::NotNumber(_)));
    assert!(matches!(
        fault("remove = \"ratio\""),
        ConfigError::Expression(ExpressionError::UnexpectedEnd)
    ));
    assert!(matches!(fault("remove = 1"), ConfigError::NotText(name) if name == "remove"));
    assert!(matches!(
        fault("status = 1\nratio = \"x\""),
        ConfigError::NotTexts(_)
    ));
}

fn rejected(tasks: &str) -> ConfigError {
    match load(tasks) {
        Ok(_) => panic!("configuration is turned down: {tasks}"),
        Err(error) => error,
    }
}

#[test]
fn faulty_tasks_are_turned_down() {
    assert!(matches!(rejected(""), ConfigError::NoTasks));
    assert!(matches!(rejected("[tasks]"), ConfigError::TasksNotTables));
    assert!(matches!(
        rejected("[[tasks]]"),
        ConfigError::Missing(name) if name == "tasks.name"
    ));
    assert!(matches!(
        rejected("[[tasks]]\nname = 1"),
        ConfigError::NotText(name) if name == "tasks.name"
    ));
    assert!(matches!(
        rejected("[[tasks]]\nname = \"t\"\ndelete_data = 1"),
        ConfigError::NotBoolean(name) if name == "delete_data"
    ));
    assert!(matches!(
        rejected("[[tasks]]\nname = \"t\""),
        ConfigError::NoStrategies(name) if name == "t"
    ));
    assert!(matches!(
        rejected("[[tasks]]\nname = \"t\"\nstrategies = []"),
        ConfigError::StrategiesNotTables(name) if name == "t"
    ));
    assert!(matches!(
        rejected("[[tasks]]\nname = \"t\"\n[[tasks.strategies]]\nratio = 1"),
        ConfigError::NoStrategyName
    ));
    assert!(matches!(
        rejected("[[tasks]]\nname = \"t\"\n[[tasks.strategies]]\nname = 1"),
        ConfigError::NotText(name) if name == "tasks.strategies.name"
    ));
    let strategies = "[[tasks.strategies]]\nname = \"s\"\n";
    assert!(matches!(
        rejected(&format!("[[tasks]]\nname = \"t\"\n{strategies}{strategies}")),
        ConfigError::DuplicateStrategy(task, name) if task == "t" && name == "s"
    ));
    let task = format!("[[tasks]]\nname = \"t\"\n{strategies}");
    assert!(matches!(
        rejected(&format!("{task}{task}")),
        ConfigError::DuplicateTask(name) if name == "t"
    ));
    assert!(matches!(load_config("client = ["), Err(ConfigError::Syntax(_))));
    assert!(matches!(load_config("client = 1"), Err(ConfigError::NoClient)));
    assert!(matches!(load_config(&task), Err(ConfigError::NoClient)));
    assert!(matches!(
        load_config("client = { host = \"h\", username = 1 }"),
        Err(ConfigError::NotText(name)) if name == "client.username"
    ));
    assert!(matches!(
        load_config("client = { host = \"h\", username = \"u\" }"),
        Err(ConfigError::Missing(name)) if name == "client.password"
    ));
}

#[test]
fn empty_array_of_tasks_is_turned_down() {
    let entry = |key: &str, item: ConfigItem| ConfigEntry { key: key.to_string(), item };
    let text = |text: &str| ConfigItem::Text(text.to_string());
    let root = vec![
        entry(
            "client",
            ConfigItem::Table(vec![
                entry("host", text("h")),
                entry("username", text("u")),
                entry("password", text("p")),
            ]),
        ),
        entry("tasks", ConfigItem::Tables(vec![])),
    ];
    assert!(matches!(
        qb_tools::config::parse_config(&root),
        Err(ConfigError::EmptyTasks)
    ));
}

#[test]
fn documents_become_plain_values() {
    let table = root(
        "a = 1\nb = 1.5\nc = \"x\"\nd = true\ne = 1979-05-27\nf = [1, \"y\", [2]]\ng = { h = 1, i = 2 }\n[j]\nk = 1\n[[l]]\nm = 1\n[[l]]\n",
    );
    let keys: Vec<&str> = table.iter().map(|entry| entry.key.as_str()).collect();
    assert_eq!(keys, vec!["a", "b", "c", "d", "e", "f", "g", "j", "l"]);
    assert!(matches!(table[0].item, ConfigItem::Integer(1)));
    assert!(matches!(&table[1].item, ConfigItem::Float(n) if f64::from_bits(n.bits) == 1.5));
    assert!(matches!(&table[2].item, ConfigItem::Text(text) if text == "x"));
    assert!(matches!(table[3].item, ConfigItem::Boolean(true)));
    assert!(matches!(table[4].item, ConfigItem::Datetime));
    match &table[5].item {
        ConfigItem::Array(items) => {
            assert_eq!(items.len(), 3);
            assert!(matches!(items[0], ConfigItem::Integer(1)));
            assert!(matches!(&items[1], ConfigItem::Text(text) if text == "y"));
            assert!(matches!(&items[2], ConfigItem::Array(inner) if inner.len() == 1));
        }
        _ => panic!("an array"),
    }
    match &table[6].item {
        ConfigItem::Table(entries) => {
            assert_eq!(entries.len(), 2);
            assert_eq!(entries[0].key, "h");
            assert_eq!(entries[1].key, "i");
            assert!(matches!(entries[1].item, ConfigItem::Integer(2)));
        }
        _ => panic!("an inline table"),
    }
    assert!(matches!(&table[7].item, ConfigItem::Table(entries) if entries[0].key == "k"));
    match &table[8].item {
        ConfigItem::Tables(tables) => {
            assert_eq!(tables.len(), 2);
            assert_eq!(tables[0][0].key, "m");
            assert!(tables[1].is_empty());
        }
        _ => panic!("an array of tables"),
    }
    assert!(read_document("a = ").is_err());
}

#[test]
fn actions_have_their_names() {
    for (name, action) in [
        ("remove-old-seeds", SortAction::RemoveOldSeeds),
        ("remove-new-seeds", SortAction::RemoveNewSeeds),
        ("REMOVE-BIG-SEEDS", SortAction::RemoveBigSeeds),
        ("remove-small-seeds", SortAction::RemoveSmallSeeds),
        ("remove-active-seeds", SortAction::RemoveActiveSeeds),
        ("remove-inactive-seeds", SortAction::RemoveInactiveSeeds),
        ("remove-fast-upload-seeds", SortAction::RemoveFastUploadSeeds),
        ("remove-slow-upload-seeds", SortAction::RemoveSlowUploadSeeds),
    ] {
        assert_eq!(parse_sort_action(name), Some(action));
    }
    assert_eq!(parse_sort_action("remove"), None);
    assert!(matches!(
        parse_last_activity(&ConfigItem::Text("None".to_string())),
        Ok(LastActivityValue::Never)
    ));
    assert!(matches!(
        parse_last_activity(&ConfigItem::Integer(60)),
        Ok(LastActivityValue::Seconds(n)) if f64::from_bits(n.bits) == 60.0
    ));
}

#[test]
fn statuses_have_their_names() {
    let words = [
        "Downloading", "uploading", "CHECKING", "queued", "paused", "stopped", "error", "unknown",
    ];
    let item = ConfigItem::Array(
        words.iter().map(|word| ConfigItem::Text(word.to_string())).collect(),
    );
    match parse_status_selector(&item, "status") {
        Ok(selector) => assert_eq!(
            selector.statuses,
            vec![
                TorrentStatus::Downloading,
                TorrentStatus::Uploading,
                TorrentStatus::Checking,
                TorrentStatus::Queued,
                TorrentStatus::Paused,
                TorrentStatus::Stopped,
                TorrentStatus::Error,
                TorrentStatus::Unknown,
            ]
        ),
        Err(_) => panic!("selector parses"),
    }
}
