//! The configuration of the removal tasks: how its entries are read, and what can be wrong with
//! them.

use crate::condition::{means_never, ConditionSpec, LastActivityValue, SortAction};
use crate::document::{
    entry_of, find_entry, item_says, lemma_items_say, lemma_table_says, lemma_tables_say,
    read_document, table_says, tables_say, toml_document, ConfigEntry, ConfigItem, ItemView,
    TableView,
};
use crate::expression::{
    expression_of, expression_view, parse_expression, ErrorView, ExpressionError,
};
use crate::filter::{FilterConfig, StatusSelector};
use crate::number::{law_integers_are_exact, law_whole_numbers_enclose, of_integer, Number};
use crate::task::{AutoremoveTask, StrategyConfig};
use crate::text::{chars_of, lower, same_text, texts, to_lower};
use crate::torrent::TorrentStatus;
use vstd::prelude::*;

verus! {

/// How to reach qBittorrent.
pub struct ClientConfig {
    pub host: String,
    pub username: String,
    pub password: String,
}

/// The configuration of the removal tasks.
pub struct AutoremoveConfig {
    pub client: ClientConfig,
    pub tasks: Vec<AutoremoveTask>,
}

/// What can be wrong with a configuration. A text names the entry, unless said otherwise.
pub enum ConfigError {
    /// The document cannot be read; the text says why.
    Syntax(String),
    NoClient,
    Missing(String),
    NotText(String),
    NotBoolean(String),
    NotNumber(String),
    NotTexts(String),
    NotOnlyTexts(String),
    NotTable(String),
    NegativeLimit,
    NotNever,
    /// The text is the action that there is not.
    NoSuchAction(String),
    Expression(ExpressionError),
    NoStrategyName,
    NoTasks,
    TasksNotTables,
    EmptyTasks,
    /// The text is the name that two tasks have.
    DuplicateTask(String),
    /// The text is the name of the task.
    NoStrategies(String),
    /// The text is the name of the task.
    StrategiesNotTables(String),
    /// The name of the task, and the name that two of its strategies have.
    DuplicateStrategy(String, String),
}

/// What an error says.
pub enum FaultView {
    Syntax(Seq<char>),
    NoClient,
    Missing(Seq<char>),
    NotText(Seq<char>),
    NotBoolean(Seq<char>),
    NotNumber(Seq<char>),
    NotTexts(Seq<char>),
    NotOnlyTexts(Seq<char>),
    NotTable(Seq<char>),
    NegativeLimit,
    NotNever,
    NoSuchAction(Seq<char>),
    Expression(ErrorView),
    NoStrategyName,
    NoTasks,
    TasksNotTables,
    EmptyTasks,
    DuplicateTask(Seq<char>),
    NoStrategies(Seq<char>),
    StrategiesNotTables(Seq<char>),
    DuplicateStrategy(Seq<char>, Seq<char>),
}

impl View for ConfigError {
    type V = FaultView;

    open spec fn view(&self) -> FaultView {
        match self {
            ConfigError::Syntax(text) => FaultView::Syntax(text@),
            ConfigError::NoClient => FaultView::NoClient,
            ConfigError::Missing(text) => FaultView::Missing(text@),
            ConfigError::NotText(text) => FaultView::NotText(text@),
            ConfigError::NotBoolean(text) => FaultView::NotBoolean(text@),
            ConfigError::NotNumber(text) => FaultView::NotNumber(text@),
            ConfigError::NotTexts(text) => FaultView::NotTexts(text@),
            ConfigError::NotOnlyTexts(text) => FaultView::NotOnlyTexts(text@),
            ConfigError::NotTable(text) => FaultView::NotTable(text@),
            ConfigError::NegativeLimit => FaultView::NegativeLimit,
            ConfigError::NotNever => FaultView::NotNever,
            ConfigError::NoSuchAction(text) => FaultView::NoSuchAction(text@),
            ConfigError::Expression(error) => FaultView::Expression(error@),
            ConfigError::NoStrategyName => FaultView::NoStrategyName,
            ConfigError::NoTasks => FaultView::NoTasks,
            ConfigError::TasksNotTables => FaultView::TasksNotTables,
            ConfigError::EmptyTasks => FaultView::EmptyTasks,
            ConfigError::DuplicateTask(text) => FaultView::DuplicateTask(text@),
            ConfigError::NoStrategies(text) => FaultView::NoStrategies(text@),
            ConfigError::StrategiesNotTables(text) => FaultView::StrategiesNotTables(text@),
            ConfigError::DuplicateStrategy(task, strategy) => FaultView::DuplicateStrategy(
                task@,
                strategy@,
            ),
        }
    }
}

/// The text that an item is.
pub open spec fn text_of(item: ItemView, context: Seq<char>) -> Result<Seq<char>, FaultView> {
    match item {
        ItemView::Text(text) => Ok(text),
        _ => Err(FaultView::NotText(context)),
    }
}

/// The truth value that an item is.
pub open spec fn boolean_of(item: ItemView, context: Seq<char>) -> Result<bool, FaultView> {
    match item {
        ItemView::Boolean(boolean) => Ok(boolean),
        _ => Err(FaultView::NotBoolean(context)),
    }
}

/// The number that an item is.
pub open spec fn number_of(item: ItemView, context: Seq<char>) -> Result<Number, FaultView> {
    match item {
        ItemView::Float(number) => Ok(number),
        ItemView::Integer(integer) => Ok(of_integer(integer as int)),
        _ => Err(FaultView::NotNumber(context)),
    }
}

/// The texts that an item is: one, or an array of them.
pub open spec fn texts_of(item: ItemView, context: Seq<char>) -> Result<
    Seq<Seq<char>>,
    FaultView,
> {
    match item {
        ItemView::Text(text) => Ok(seq![text]),
        ItemView::Array(items) => if forall|i: int|
            0 <= i < items.len() ==> (#[trigger] items[i]) is Text {
            Ok(Seq::new(items.len(), |i: int| items[i]->Text_0))
        } else {
            Err(FaultView::NotOnlyTexts(context))
        },
        _ => Err(FaultView::NotTexts(context)),
    }
}

/// The table that an item is.
pub open spec fn table_of(item: ItemView, context: Seq<char>) -> Result<TableView, FaultView> {
    match item {
        ItemView::Table(table) => Ok(table),
        _ => Err(FaultView::NotTable(context)),
    }
}

/// The text that a table has to hold under a key.
pub open spec fn required_text(table: TableView, key: Seq<char>, context: Seq<char>) -> Result<
    Seq<char>,
    FaultView,
> {
    match entry_of(table, key) {
        None => Err(FaultView::Missing(context)),
        Some(item) => text_of(item, context),
    }
}

/// The number that a table has to hold under a key.
pub open spec fn required_number(table: TableView, key: Seq<char>, context: Seq<char>) -> Result<
    Number,
    FaultView,
> {
    match entry_of(table, key) {
        None => Err(FaultView::Missing(context)),
        Some(item) => number_of(item, context),
    }
}

/// Whether an outcome is the one that is stated.
pub open spec fn agrees<T>(outcome: Result<T, ConfigError>, stated: Result<T, FaultView>) -> bool {
    match outcome {
        Ok(value) => stated == Ok::<T, FaultView>(value),
        Err(error) => stated == Err::<T, FaultView>(error@),
    }
}

/// Whether a text that came out is the one that is stated.
pub open spec fn text_agrees(
    outcome: Result<String, ConfigError>,
    stated: Result<Seq<char>, FaultView>,
) -> bool {
    match outcome {
        Ok(text) => stated == Ok::<Seq<char>, FaultView>(text@),
        Err(error) => stated == Err::<Seq<char>, FaultView>(error@),
    }
}

/// Whether texts that came out are those that are stated.
pub open spec fn texts_agree(
    outcome: Result<Vec<String>, ConfigError>,
    stated: Result<Seq<Seq<char>>, FaultView>,
) -> bool {
    match outcome {
        Ok(list) => stated == Ok::<Seq<Seq<char>>, FaultView>(texts(list@)),
        Err(error) => stated == Err::<Seq<Seq<char>>, FaultView>(error@),
    }
}

/// The text that an item is.
pub fn parse_string_item(item: &ConfigItem, context: &str) -> (outcome: Result<
    String,
    ConfigError,
>)
    ensures
        text_agrees(outcome, text_of(item_says(*item), context@)),
{
    match item {
        ConfigItem::Text(text) => Ok(text.clone()),
        _ => Err(ConfigError::NotText(String::from_str(context))),
    }
}

/// The truth value that an item is.
pub fn parse_bool_item(item: &ConfigItem, context: &str) -> (outcome: Result<bool, ConfigError>)
    ensures
        agrees(outcome, boolean_of(item_says(*item), context@)),
{
    match item {
        ConfigItem::Boolean(boolean) => Ok(*boolean),
        _ => Err(ConfigError::NotBoolean(String::from_str(context))),
    }
}

/// The number that an item is.
pub fn parse_number_item(item: &ConfigItem, context: &str) -> (outcome: Result<
    Number,
    ConfigError,
>)
    ensures
        agrees(outcome, number_of(item_says(*item), context@)),
{
    match item {
        ConfigItem::Float(number) => Ok(*number),
        ConfigItem::Integer(integer) => Ok(Number::from_integer(*integer)),
        _ => Err(ConfigError::NotNumber(String::from_str(context))),
    }
}

/// The texts that an item is: one, or an array of them.
pub fn parse_string_list(item: &ConfigItem, context: &str) -> (outcome: Result<
    Vec<String>,
    ConfigError,
>)
    ensures
        texts_agree(outcome, texts_of(item_says(*item), context@)),
{
    match item {
        ConfigItem::Text(text) => {
            let mut list: Vec<String> = Vec::new();
            list.push(text.clone());
            assert(texts(list@) =~= seq![text@]);
            Ok(list)
        },
        ConfigItem::Array(items) => {
            let ghost views = crate::document::items_say(items@);
            proof {
                lemma_items_say(items@);
            }
            let mut list: Vec<String> = Vec::new();
            let mut i: usize = 0;
            while i < items.len()
                invariant
                    i <= items@.len(),
                    item_says(*item) == ItemView::Array(views),
                    views.len() == items@.len(),
                    forall|j: int|
                        0 <= j < items@.len() ==> #[trigger] views[j] == item_says(items@[j]),
                    list@.len() == i,
                    forall|j: int|
                        0 <= j < i ==> (#[trigger] views[j]) is Text && views[j]->Text_0
                            == list@[j]@,
                decreases items.len() - i,
            {
                match &items[i] {
                    ConfigItem::Text(text) => {
                        list.push(text.clone());
                    },
                    _ => {
                        assert(views[i as int] !is Text);
                        return Err(ConfigError::NotOnlyTexts(String::from_str(context)));
                    },
                }
                i = i + 1;
            }
            assert(texts(list@) =~= Seq::new(views.len(), |k: int| views[k]->Text_0));
            Ok(list)
        },
        _ => Err(ConfigError::NotTexts(String::from_str(context))),
    }
}

/// The text that a table has to hold under a key.
pub fn get_required_string(table: &Vec<ConfigEntry>, key: &str, context: &str) -> (outcome: Result<
    String,
    ConfigError,
>)
    ensures
        text_agrees(outcome, required_text(table_says(table@), key@, context@)),
{
    match find_entry(table, key) {
        None => Err(ConfigError::Missing(String::from_str(context))),
        Some(item) => parse_string_item(item, context),
    }
}

/// The number that a table has to hold under a key.
pub fn get_required_number(table: &Vec<ConfigEntry>, key: &str, context: &str) -> (outcome: Result<
    Number,
    ConfigError,
>)
    ensures
        agrees(outcome, required_number(table_says(table@), key@, context@)),
{
    match find_entry(table, key) {
        None => Err(ConfigError::Missing(String::from_str(context))),
        Some(item) => parse_number_item(item, context),
    }
}

/// The truth value that a table may hold under a key.
pub open spec fn optional_boolean(table: TableView, key: Seq<char>) -> Result<
    Option<bool>,
    FaultView,
> {
    match entry_of(table, key) {
        None => Ok(None),
        Some(item) => match boolean_of(item, key) {
            Ok(boolean) => Ok(Some(boolean)),
            Err(fault) => Err(fault),
        },
    }
}

/// The truth value that a table may hold under a key.
pub fn get_optional_bool(table: &Vec<ConfigEntry>, key: &str) -> (outcome: Result<
    Option<bool>,
    ConfigError,
>)
    ensures
        agrees(outcome, optional_boolean(table_says(table@), key@)),
{
    match find_entry(table, key) {
        None => Ok(None),
        Some(item) => match parse_bool_item(item, key) {
            Ok(boolean) => Ok(Some(boolean)),
            Err(error) => Err(error),
        },
    }
}

/// The action that a word names, whatever the case of its letters.
pub open spec fn action_of(word: Seq<char>) -> Option<SortAction> {
    let word = lower(word);
    if word == "remove-old-seeds"@ {
        Some(SortAction::RemoveOldSeeds)
    } else if word == "remove-new-seeds"@ {
        Some(SortAction::RemoveNewSeeds)
    } else if word == "remove-big-seeds"@ {
        Some(SortAction::RemoveBigSeeds)
    } else if word == "remove-small-seeds"@ {
        Some(SortAction::RemoveSmallSeeds)
    } else if word == "remove-active-seeds"@ {
        Some(SortAction::RemoveActiveSeeds)
    } else if word == "remove-inactive-seeds"@ {
        Some(SortAction::RemoveInactiveSeeds)
    } else if word == "remove-fast-upload-seeds"@ {
        Some(SortAction::RemoveFastUploadSeeds)
    } else if word == "remove-slow-upload-seeds"@ {
        Some(SortAction::RemoveSlowUploadSeeds)
    } else {
        None
    }
}

/// The action that a word names, whatever the case of its letters.
pub fn parse_sort_action(action: &str) -> (parsed: Option<SortAction>)
    ensures
        parsed == action_of(action@),
{
    let word = to_lower(action);
    let word = word.as_str();
    if same_text(word, "remove-old-seeds") {
        Some(SortAction::RemoveOldSeeds)
    } else if same_text(word, "remove-new-seeds") {
        Some(SortAction::RemoveNewSeeds)
    } else if same_text(word, "remove-big-seeds") {
        Some(SortAction::RemoveBigSeeds)
    } else if same_text(word, "remove-small-seeds") {
        Some(SortAction::RemoveSmallSeeds)
    } else if same_text(word, "remove-active-seeds") {
        Some(SortAction::RemoveActiveSeeds)
    } else if same_text(word, "remove-inactive-seeds") {
        Some(SortAction::RemoveInactiveSeeds)
    } else if same_text(word, "remove-fast-upload-seeds") {
        Some(SortAction::RemoveFastUploadSeeds)
    } else if same_text(word, "remove-slow-upload-seeds") {
        Some(SortAction::RemoveSlowUploadSeeds)
    } else {
        None
    }
}

/// The action that a table has to name.
pub open spec fn required_action(table: TableView, context: Seq<char>) -> Result<
    SortAction,
    FaultView,
> {
    match required_text(table, "action"@, context) {
        Err(fault) => Err(fault),
        Ok(word) => match action_of(word) {
            Some(action) => Ok(action),
            None => Err(FaultView::NoSuchAction(word)),
        },
    }
}

fn get_required_action(table: &Vec<ConfigEntry>, context: &str) -> (outcome: Result<
    SortAction,
    ConfigError,
>)
    ensures
        agrees(outcome, required_action(table_says(table@), context@)),
{
    match get_required_string(table, "action", context) {
        Err(error) => Err(error),
        Ok(word) => match parse_sort_action(word.as_str()) {
            Some(action) => Ok(action),
            None => Err(ConfigError::NoSuchAction(word)),
        },
    }
}

/// The first fault among outcomes, if any.
pub open spec fn fault_of<T>(outcome: Result<T, FaultView>) -> Option<FaultView> {
    match outcome {
        Ok(_) => None,
        Err(fault) => Some(fault),
    }
}

/// The condition on the total size that an item states.
pub open spec fn seed_size_of(item: ItemView) -> Result<ConditionSpec, FaultView> {
    match table_of(item, "seed_size"@) {
        Err(fault) => Err(fault),
        Ok(table) => match required_number(table, "limit"@, "seed_size.limit"@) {
            Err(fault) => Err(fault),
            Ok(limit_gib) => match required_action(table, "seed_size.action"@) {
                Err(fault) => Err(fault),
                Ok(action) => Ok(ConditionSpec::SeedSize { limit_gib, action }),
            },
        },
    }
}

/// The condition on the total size that an item states.
pub fn parse_seed_size(item: &ConfigItem) -> (outcome: Result<ConditionSpec, ConfigError>)
    ensures
        agrees(outcome, seed_size_of(item_says(*item))),
{
    match item {
        ConfigItem::Table(table) => {
            let limit_gib = match get_required_number(table, "limit", "seed_size.limit") {
                Ok(limit) => limit,
                Err(error) => {
                    return Err(error);
                },
            };
            match get_required_action(table, "seed_size.action") {
                Ok(action) => Ok(ConditionSpec::SeedSize { limit_gib, action }),
                Err(error) => Err(error),
            }
        },
        _ => Err(ConfigError::NotTable(String::from_str("seed_size"))),
    }
}

/// The condition on the number of torrents that an item states.
pub open spec fn maximum_number_of(item: ItemView) -> Result<ConditionSpec, FaultView> {
    match table_of(item, "maximum_number"@) {
        Err(fault) => Err(fault),
        Ok(table) => match required_number(table, "limit"@, "maximum_number.limit"@) {
            Err(fault) => Err(fault),
            Ok(limit) => if !(of_integer(0).is_less(limit) || of_integer(0).is_same(limit)) {
                Err(FaultView::NegativeLimit)
            } else {
                match required_action(table, "maximum_number.action"@) {
                    Err(fault) => Err(fault),
                    Ok(action) => Ok(
                        ConditionSpec::MaximumNumber {
                            limit: limit.floor_within(usize::MAX as nat) as usize,
                            action,
                        },
                    ),
                }
            },
        },
    }
}

/// The condition on the number of torrents that an item states.
pub fn parse_maximum_number(item: &ConfigItem) -> (outcome: Result<ConditionSpec, ConfigError>)
    ensures
        agrees(outcome, maximum_number_of(item_says(*item))),
{
    match item {
        ConfigItem::Table(table) => {
            let limit = match get_required_number(table, "limit", "maximum_number.limit") {
                Ok(limit) => limit,
                Err(error) => {
                    return Err(error);
                },
            };
            let zero = Number::from_natural(0);
            if !(zero.less(limit) || zero.same(limit)) {
                return Err(ConfigError::NegativeLimit);
            }
            match get_required_action(table, "maximum_number.action") {
                Ok(action) => {
                    let whole: u64 = limit.floor(usize::MAX as u64);
                    Ok(ConditionSpec::MaximumNumber { limit: whole as usize, action })
                },
                Err(error) => Err(error),
            }
        },
        _ => Err(ConfigError::NotTable(String::from_str("maximum_number"))),
    }
}

/// What a table says about free space: how much there has to be, where, and what is removed for it.
pub open spec fn space_of(
    item: ItemView,
    name: Seq<char>,
    min_name: Seq<char>,
    path_name: Seq<char>,
    action_name: Seq<char>,
) -> Result<(Number, Seq<char>, SortAction), FaultView> {
    match table_of(item, name) {
        Err(fault) => Err(fault),
        Ok(table) => match required_number(table, "min"@, min_name) {
            Err(fault) => Err(fault),
            Ok(min_gib) => match required_text(table, "path"@, path_name) {
                Err(fault) => Err(fault),
                Ok(path) => match required_action(table, action_name) {
                    Err(fault) => Err(fault),
                    Ok(action) => Ok((min_gib, path, action)),
                },
            },
        },
    }
}

fn parse_space(
    item: &ConfigItem,
    name: &str,
    min_name: &str,
    path_name: &str,
    action_name: &str,
) -> (outcome: Result<(Number, String, SortAction), ConfigError>)
    ensures
        match outcome {
            Ok((min_gib, path, action)) => space_of(
                item_says(*item),
                name@,
                min_name@,
                path_name@,
                action_name@,
            ) == Ok::<(Number, Seq<char>, SortAction), FaultView>((min_gib, path@, action)),
            Err(error) => space_of(
                item_says(*item),
                name@,
                min_name@,
                path_name@,
                action_name@,
            ) == Err::<(Number, Seq<char>, SortAction), FaultView>(error@),
        },
{
    match item {
        ConfigItem::Table(table) => {
            let min_gib = match get_required_number(table, "min", min_name) {
                Ok(min_gib) => min_gib,
                Err(error) => {
                    return Err(error);
                },
            };
            let path = match get_required_string(table, "path", path_name) {
                Ok(path) => path,
                Err(error) => {
                    return Err(error);
                },
            };
            match get_required_action(table, action_name) {
                Ok(action) => Ok((min_gib, path, action)),
                Err(error) => Err(error),
            }
        },
        _ => Err(ConfigError::NotTable(String::from_str(name))),
    }
}

/// What a condition on free space says.
pub open spec fn free_space_of(item: ItemView) -> Result<
    (Number, Seq<char>, SortAction),
    FaultView,
> {
    space_of(item, "free_space"@, "free_space.min"@, "free_space.path"@, "free_space.action"@)
}

/// What a condition on qBittorrent's free space says.
pub open spec fn remote_free_space_of(item: ItemView) -> Result<
    (Number, Seq<char>, SortAction),
    FaultView,
> {
    space_of(
        item,
        "remote_free_space"@,
        "remote_free_space.min"@,
        "remote_free_space.path"@,
        "remote_free_space.action"@,
    )
}

/// The condition on free space that an item states.
pub fn parse_free_space(item: &ConfigItem) -> (outcome: Result<ConditionSpec, ConfigError>)
    ensures
        match outcome {
            Ok(condition) => condition matches ConditionSpec::FreeSpace { min_gib, path, action }
                && free_space_of(item_says(*item)) == Ok::<
                (Number, Seq<char>, SortAction),
                FaultView,
            >((min_gib, path@, action)),
            Err(error) => free_space_of(item_says(*item)) == Err::<
                (Number, Seq<char>, SortAction),
                FaultView,
            >(error@),
        },
{
    match parse_space(
        item,
        "free_space",
        "free_space.min",
        "free_space.path",
        "free_space.action",
    ) {
        Ok((min_gib, path, action)) => Ok(ConditionSpec::FreeSpace { min_gib, path, action }),
        Err(error) => Err(error),
    }
}

/// The condition on qBittorrent's free space that an item states.
pub fn parse_remote_free_space(item: &ConfigItem) -> (outcome: Result<ConditionSpec, ConfigError>)
    ensures
        match outcome {
            Ok(condition) => condition matches ConditionSpec::RemoteFreeSpace {
                min_gib,
                path,
                action,
            } && remote_free_space_of(item_says(*item)) == Ok::<
                (Number, Seq<char>, SortAction),
                FaultView,
            >((min_gib, path@, action)),
            Err(error) => remote_free_space_of(item_says(*item)) == Err::<
                (Number, Seq<char>, SortAction),
                FaultView,
            >(error@),
        },
{
    match parse_space(
        item,
        "remote_free_space",
        "remote_free_space.min",
        "remote_free_space.path",
        "remote_free_space.action",
    ) {
        Ok((min_gib, path, action)) => Ok(
            ConditionSpec::RemoteFreeSpace { min_gib, path, action },
        ),
        Err(error) => Err(error),
    }
}

/// What the last activity is held against.
pub open spec fn last_activity_of(item: ItemView) -> Result<LastActivityValue, FaultView> {
    match item {
        ItemView::Text(word) => if means_never(word) {
            Ok(LastActivityValue::Never)
        } else {
            Err(FaultView::NotNever)
        },
        _ => match number_of(item, "last_activity"@) {
            Ok(number) => Ok(LastActivityValue::Seconds(number)),
            Err(fault) => Err(fault),
        },
    }
}

/// What the last activity is held against: a number of seconds, or that there was none.
pub fn parse_last_activity(item: &ConfigItem) -> (outcome: Result<LastActivityValue, ConfigError>)
    ensures
        agrees(outcome, last_activity_of(item_says(*item))),
{
    match item {
        ConfigItem::Text(word) => {
            let word = to_lower(word.as_str());
            if same_text(word.as_str(), "never") || same_text(word.as_str(), "none") {
                Ok(LastActivityValue::Never)
            } else {
                Err(ConfigError::NotNever)
            }
        },
        _ => match parse_number_item(item, "last_activity") {
            Ok(number) => Ok(LastActivityValue::Seconds(number)),
            Err(error) => Err(error),
        },
    }
}

/// The status that a word names.
pub open spec fn status_named(word: Seq<char>) -> Option<TorrentStatus> {
    let word = lower(word);
    if word == "downloading"@ {
        Some(TorrentStatus::Downloading)
    } else if word == "uploading"@ {
        Some(TorrentStatus::Uploading)
    } else if word == "checking"@ {
        Some(TorrentStatus::Checking)
    } else if word == "queued"@ {
        Some(TorrentStatus::Queued)
    } else if word == "paused"@ {
        Some(TorrentStatus::Paused)
    } else if word == "stopped"@ {
        Some(TorrentStatus::Stopped)
    } else if word == "error"@ {
        Some(TorrentStatus::Error)
    } else if word == "unknown"@ {
        Some(TorrentStatus::Unknown)
    } else {
        None
    }
}

fn parse_status(word: &str) -> (status: Option<TorrentStatus>)
    ensures
        status == status_named(word@),
{
    let word = to_lower(word);
    let word = word.as_str();
    if same_text(word, "downloading") {
        Some(TorrentStatus::Downloading)
    } else if same_text(word, "uploading") {
        Some(TorrentStatus::Uploading)
    } else if same_text(word, "checking") {
        Some(TorrentStatus::Checking)
    } else if same_text(word, "queued") {
        Some(TorrentStatus::Queued)
    } else if same_text(word, "paused") {
        Some(TorrentStatus::Paused)
    } else if same_text(word, "stopped") {
        Some(TorrentStatus::Stopped)
    } else if same_text(word, "error") {
        Some(TorrentStatus::Error)
    } else if same_text(word, "unknown") {
        Some(TorrentStatus::Unknown)
    } else {
        None
    }
}

/// Whether a word is among others, whatever the case of their letters.
pub open spec fn holds_word(words: Seq<Seq<char>>, word: Seq<char>) -> bool {
    exists|i: int| 0 <= i < words.len() && lower(#[trigger] words[i]) == word
}

/// Whether a status is named among words.
pub open spec fn names_status(words: Seq<Seq<char>>, status: TorrentStatus) -> bool {
    exists|i: int| 0 <= i < words.len() && status_named(#[trigger] words[i]) == Some(status)
}

/// Whether a selector is the one that words describe. Words that name no status say nothing.
pub open spec fn is_selector(words: Seq<Seq<char>>, selector: StatusSelector) -> bool {
    &&& selector.stalled_upload == holds_word(words, "stalledupload"@)
    &&& selector.stalled_download == holds_word(words, "stalleddownload"@)
    &&& forall|status: TorrentStatus| #[trigger]
        selector.statuses@.contains(status) == names_status(words, status)
}

fn no_status() -> (selector: StatusSelector)
    ensures
        is_selector(Seq::empty(), selector),
{
    let statuses: Vec<TorrentStatus> = Vec::new();
    StatusSelector { statuses, stalled_upload: false, stalled_download: false }
}

/// The statuses that an item names.
pub fn parse_status_selector(item: &ConfigItem, context: &str) -> (outcome: Result<
    StatusSelector,
    ConfigError,
>)
    ensures
        match outcome {
            Ok(selector) => texts_of(item_says(*item), context@) matches Ok(words) && is_selector(
                words,
                selector,
            ),
            Err(error) => texts_of(item_says(*item), context@) == Err::<Seq<Seq<char>>, FaultView>(
                error@,
            ),
        },
{
    let words = match parse_string_list(item, context) {
        Ok(words) => words,
        Err(error) => {
            return Err(error);
        },
    };
    let mut statuses: Vec<TorrentStatus> = Vec::new();
    let mut stalled_upload: bool = false;
    let mut stalled_download: bool = false;
    let ghost all = texts(words@);
    let mut i: usize = 0;
    assert(all.take(0) =~= Seq::<Seq<char>>::empty());
    while i < words.len()
        invariant
            i <= words@.len(),
            all == texts(words@),
            stalled_upload == holds_word(all.take(i as int), "stalledupload"@),
            stalled_download == holds_word(all.take(i as int), "stalleddownload"@),
            forall|status: TorrentStatus| #[trigger]
                statuses@.contains(status) == names_status(all.take(i as int), status),
        decreases words.len() - i,
    {
        let ghost sofar = all.take(i as int);
        let ghost next = all.take(i + 1);
        let ghost before = statuses@;
        let ghost word = words@[i as int]@;
        proof {
            assert(next =~= sofar.push(word));
            lemma_one_word_more(sofar, word);
        }
        let lowered = to_lower(words[i].as_str());
        if same_text(lowered.as_str(), "stalledupload") {
            stalled_upload = true;
        }
        if same_text(lowered.as_str(), "stalleddownload") {
            stalled_download = true;
        }
        if let Some(status) = parse_status(words[i].as_str()) {
            statuses.push(status);
            proof {
                assert(statuses@.last() == status);
                assert forall|other: TorrentStatus| #[trigger]
                    statuses@.contains(other) == (before.contains(other) || other == status) by {
                    if before.contains(other) {
                        let k = choose|k: int| 0 <= k < before.len() && before[k] == other;
                        assert(statuses@[k] == other);
                    }
                    if statuses@.contains(other) && other != status {
                        let k = choose|k: int| 0 <= k < statuses@.len() && statuses@[k] == other;
                        assert(before[k] == other);
                    }
                }
            }
        }
        i = i + 1;
    }
    assert(all.take(i as int) =~= all);
    Ok(StatusSelector { statuses, stalled_upload, stalled_download })
}

proof fn lemma_one_word_more(words: Seq<Seq<char>>, word: Seq<char>)
    ensures
        forall|wanted: Seq<char>| #[trigger]
            holds_word(words.push(word), wanted) == (holds_word(words, wanted) || lower(word)
                == wanted),
        forall|status: TorrentStatus| #[trigger]
            names_status(words.push(word), status) == (names_status(words, status)
                || status_named(word) == Some(status)),
{
    let more = words.push(word);
    assert(more[words.len() as int] == word);
    assert forall|wanted: Seq<char>| #[trigger] holds_word(more, wanted) == (holds_word(
        words,
        wanted,
    ) || lower(word) == wanted) by {
        if holds_word(words, wanted) {
            let k = choose|k: int| 0 <= k < words.len() && lower(#[trigger] words[k]) == wanted;
            assert(more[k] == words[k]);
        }
        if holds_word(more, wanted) && lower(word) != wanted {
            let k = choose|k: int| 0 <= k < more.len() && lower(#[trigger] more[k]) == wanted;
            assert(words[k] == more[k]);
        }
    }
    assert forall|status: TorrentStatus| #[trigger] names_status(more, status) == (names_status(
        words,
        status,
    ) || status_named(word) == Some(status)) by {
        if names_status(words, status) {
            let k = choose|k: int|
                0 <= k < words.len() && status_named(#[trigger] words[k]) == Some(status);
            assert(more[k] == words[k]);
        }
        if names_status(more, status) && status_named(word) != Some(status) {
            let k = choose|k: int|
                0 <= k < more.len() && status_named(#[trigger] more[k]) == Some(status);
            assert(words[k] == more[k]);
        }
    }
}

/// The condition with a limit that a keyword stands for.
pub open spec fn limit_condition(key: Seq<char>, limit: Number) -> Option<ConditionSpec> {
    if key == "ratio"@ {
        Some(ConditionSpec::Ratio(limit))
    } else if key == "create_time"@ {
        Some(ConditionSpec::CreateTime(limit))
    } else if key == "downloading_time"@ {
        Some(ConditionSpec::DownloadingTime(limit))
    } else if key == "seeding_time"@ {
        Some(ConditionSpec::SeedingTime(limit))
    } else if key == "max_download"@ {
        Some(ConditionSpec::MaxDownload(limit))
    } else if key == "max_downloadspeed"@ {
        Some(ConditionSpec::MaxDownloadSpeed(limit))
    } else if key == "min_uploadspeed"@ {
        Some(ConditionSpec::MinUploadSpeed(limit))
    } else if key == "max_average_downloadspeed"@ {
        Some(ConditionSpec::MaxAverageDownloadSpeed(limit))
    } else if key == "min_average_uploadspeed"@ {
        Some(ConditionSpec::MinAverageUploadSpeed(limit))
    } else if key == "max_size"@ {
        Some(ConditionSpec::MaxSize(limit))
    } else if key == "max_seeder"@ {
        Some(ConditionSpec::MaxSeeder(limit))
    } else if key == "max_upload"@ {
        Some(ConditionSpec::MaxUpload(limit))
    } else if key == "min_leecher"@ {
        Some(ConditionSpec::MinLeecher(limit))
    } else if key == "max_connected_seeder"@ {
        Some(ConditionSpec::MaxConnectedSeeder(limit))
    } else if key == "min_connected_leecher"@ {
        Some(ConditionSpec::MinConnectedLeecher(limit))
    } else if key == "max_progress"@ {
        Some(ConditionSpec::MaxProgress(limit))
    } else if key == "upload_ratio"@ {
        Some(ConditionSpec::UploadRatio(limit))
    } else {
        None
    }
}

fn limit_condition_for(key: &str, limit: Number) -> (condition: Option<ConditionSpec>)
    ensures
        condition == limit_condition(key@, limit),
{
    if same_text(key, "ratio") {
        Some(ConditionSpec::Ratio(limit))
    } else if same_text(key, "create_time") {
        Some(ConditionSpec::CreateTime(limit))
    } else if same_text(key, "downloading_time") {
        Some(ConditionSpec::DownloadingTime(limit))
    } else if same_text(key, "seeding_time") {
        Some(ConditionSpec::SeedingTime(limit))
    } else if same_text(key, "max_download") {
        Some(ConditionSpec::MaxDownload(limit))
    } else if same_text(key, "max_downloadspeed") {
        Some(ConditionSpec::MaxDownloadSpeed(limit))
    } else if same_text(key, "min_uploadspeed") {
        Some(ConditionSpec::MinUploadSpeed(limit))
    } else if same_text(key, "max_average_downloadspeed") {
        Some(ConditionSpec::MaxAverageDownloadSpeed(limit))
    } else if same_text(key, "min_average_uploadspeed") {
        Some(ConditionSpec::MinAverageUploadSpeed(limit))
    } else if same_text(key, "max_size") {
        Some(ConditionSpec::MaxSize(limit))
    } else if same_text(key, "max_seeder") {
        Some(ConditionSpec::MaxSeeder(limit))
    } else if same_text(key, "max_upload") {
        Some(ConditionSpec::MaxUpload(limit))
    } else if same_text(key, "min_leecher") {
        Some(ConditionSpec::MinLeecher(limit))
    } else if same_text(key, "max_connected_seeder") {
        Some(ConditionSpec::MaxConnectedSeeder(limit))
    } else if same_text(key, "min_connected_leecher") {
        Some(ConditionSpec::MinConnectedLeecher(limit))
    } else if same_text(key, "max_progress") {
        Some(ConditionSpec::MaxProgress(limit))
    } else if same_text(key, "upload_ratio") {
        Some(ConditionSpec::UploadRatio(limit))
    } else {
        None
    }
}

/// Whether a keyword states a condition.
pub open spec fn is_condition_key(key: Seq<char>) -> bool {
    ||| key == "nothing"@
    ||| key == "last_activity"@
    ||| key == "seed_size"@
    ||| key == "maximum_number"@
    ||| key == "free_space"@
    ||| key == "remote_free_space"@
    ||| key == "remove"@
    ||| limit_condition(key, of_integer(0)) is Some
}

/// What is wrong with a condition.
pub open spec fn condition_fault(key: Seq<char>, item: ItemView) -> Option<FaultView> {
    if key == "nothing"@ {
        None
    } else if key == "last_activity"@ {
        fault_of(last_activity_of(item))
    } else if key == "seed_size"@ {
        fault_of(seed_size_of(item))
    } else if key == "maximum_number"@ {
        fault_of(maximum_number_of(item))
    } else if key == "free_space"@ {
        fault_of(free_space_of(item))
    } else if key == "remote_free_space"@ {
        fault_of(remote_free_space_of(item))
    } else if key == "remove"@ {
        match text_of(item, "remove"@) {
            Err(fault) => Some(fault),
            Ok(text) => match expression_of(text) {
                Ok(_) => None,
                Err(error) => Some(FaultView::Expression(error)),
            },
        }
    } else {
        fault_of(number_of(item, key))
    }
}

/// Whether a keyword and its item state a condition.
pub open spec fn states(key: Seq<char>, item: ItemView, condition: ConditionSpec) -> bool {
    if key == "nothing"@ {
        condition is Nothing
    } else if key == "last_activity"@ {
        last_activity_of(item) matches Ok(value) && condition == ConditionSpec::LastActivity(value)
    } else if key == "seed_size"@ {
        seed_size_of(item) == Ok::<ConditionSpec, FaultView>(condition)
    } else if key == "maximum_number"@ {
        maximum_number_of(item) == Ok::<ConditionSpec, FaultView>(condition)
    } else if key == "free_space"@ {
        condition matches ConditionSpec::FreeSpace { min_gib, path, action } && free_space_of(item)
            == Ok::<(Number, Seq<char>, SortAction), FaultView>((min_gib, path@, action))
    } else if key == "remote_free_space"@ {
        condition matches ConditionSpec::RemoteFreeSpace { min_gib, path, action }
            && remote_free_space_of(item) == Ok::<(Number, Seq<char>, SortAction), FaultView>(
            (min_gib, path@, action),
        )
    } else if key == "remove"@ {
        condition matches ConditionSpec::Remove(expression) && item matches ItemView::Text(text)
            && expression_of(text) == Ok::<
            crate::expression::ExpressionView,
            ErrorView,
        >(expression_view(expression))
    } else {
        number_of(item, key) matches Ok(limit) && limit_condition(key, limit) == Some(condition)
    }
}

/// The condition that a keyword and its item state; `None` if the keyword states none.
pub fn parse_condition(key: &str, item: &ConfigItem) -> (outcome: Result<
    Option<ConditionSpec>,
    ConfigError,
>)
    ensures
        match outcome {
            Ok(Some(condition)) => is_condition_key(key@) && condition_fault(
                key@,
                item_says(*item),
            ) is None && states(key@, item_says(*item), condition),
            Ok(None) => !is_condition_key(key@),
            Err(error) => is_condition_key(key@) && condition_fault(key@, item_says(*item))
                == Some(error@),
        },
{
    if same_text(key, "nothing") {
        return Ok(Some(ConditionSpec::Nothing));
    }
    if same_text(key, "last_activity") {
        return match parse_last_activity(item) {
            Ok(value) => Ok(Some(ConditionSpec::LastActivity(value))),
            Err(error) => Err(error),
        };
    }
    if same_text(key, "seed_size") {
        return match parse_seed_size(item) {
            Ok(condition) => Ok(Some(condition)),
            Err(error) => Err(error),
        };
    }
    if same_text(key, "maximum_number") {
        return match parse_maximum_number(item) {
            Ok(condition) => Ok(Some(condition)),
            Err(error) => Err(error),
        };
    }
    if same_text(key, "free_space") {
        return match parse_free_space(item) {
            Ok(condition) => Ok(Some(condition)),
            Err(error) => Err(error),
        };
    }
    if same_text(key, "remote_free_space") {
        return match parse_remote_free_space(item) {
            Ok(condition) => Ok(Some(condition)),
            Err(error) => Err(error),
        };
    }
    if same_text(key, "remove") {
        let text = match parse_string_item(item, "remove") {
            Ok(text) => text,
            Err(error) => {
                return Err(error);
            },
        };
        return match parse_expression(text.as_str()) {
            Ok(expression) => Ok(Some(ConditionSpec::Remove(expression))),
            Err(error) => Err(ConfigError::Expression(error)),
        };
    }
    if limit_condition_for(key, Number::from_natural(0)).is_none() {
        return Ok(None);
    }
    match parse_number_item(item, key) {
        Ok(limit) => Ok(limit_condition_for(key, limit)),
        Err(error) => Err(error),
    }
}

/// Whether a key of a strategy holds a truth value.
pub open spec fn is_switch(key: Seq<char>) -> bool {
    key == "all_categories"@ || key == "all_trackers"@ || key == "all_status"@
}

/// Whether a key of a strategy holds texts.
pub open spec fn is_list(key: Seq<char>) -> bool {
    key == "categories"@ || key == "excluded_categories"@ || key == "trackers"@ || key
        == "excluded_trackers"@ || key == "status"@ || key == "excluded_status"@
}

/// What is wrong with an entry of a strategy.
pub open spec fn entry_fault(key: Seq<char>, item: ItemView) -> Option<FaultView> {
    if key == "name"@ {
        fault_of(text_of(item, "tasks.strategies.name"@))
    } else if is_switch(key) {
        fault_of(boolean_of(item, key))
    } else if is_list(key) {
        fault_of(texts_of(item, key))
    } else if is_condition_key(key) {
        condition_fault(key, item)
    } else {
        None
    }
}

/// What is wrong with the first of the first `count` entries of a strategy that is wrong.
pub open spec fn first_fault(table: TableView, count: nat) -> Option<FaultView>
    decreases count,
{
    if count == 0 {
        None
    } else {
        match first_fault(table, (count - 1) as nat) {
            Some(fault) => Some(fault),
            None => entry_fault(table[count - 1].0, table[count - 1].1),
        }
    }
}

/// What is wrong with a strategy.
pub open spec fn strategy_fault(table: TableView) -> Option<FaultView> {
    match first_fault(table, table.len()) {
        Some(fault) => Some(fault),
        None => if entry_of(table, "name"@) is None {
            Some(FaultView::NoStrategyName)
        } else {
            None
        },
    }
}

/// Whether an entry of a strategy states a condition.
pub open spec fn is_condition_entry(key: Seq<char>) -> bool {
    key != "name"@ && !is_switch(key) && !is_list(key) && is_condition_key(key)
}

/// The places, below `count`, of the entries that state conditions.
pub open spec fn condition_places(table: TableView, count: nat) -> Seq<int>
    decreases count,
{
    if count == 0 {
        Seq::empty()
    } else {
        let before = condition_places(table, (count - 1) as nat);
        if is_condition_entry(table[count - 1].0) {
            before.push(count - 1)
        } else {
            before
        }
    }
}

/// The texts that a strategy lists under a key.
pub open spec fn listed(table: TableView, key: Seq<char>) -> Seq<Seq<char>> {
    match entry_of(table, key) {
        Some(item) => texts_of(item, key)->Ok_0,
        None => Seq::empty(),
    }
}

/// Whether a strategy takes all there is of something: as it says, else unless it lists what it
/// takes.
pub open spec fn takes_all(table: TableView, switch: Seq<char>, list: Seq<char>) -> bool {
    match entry_of(table, switch) {
        Some(item) => boolean_of(item, switch)->Ok_0,
        None => entry_of(table, list) is None,
    }
}

/// Whether filters are those that a strategy states.
pub open spec fn are_filters(table: TableView, filters: FilterConfig) -> bool {
    &&& filters.all_categories == takes_all(table, "all_categories"@, "categories"@)
    &&& texts(filters.categories@) == listed(table, "categories"@)
    &&& texts(filters.excluded_categories@) == listed(table, "excluded_categories"@)
    &&& filters.all_trackers == takes_all(table, "all_trackers"@, "trackers"@)
    &&& texts(filters.trackers@) == listed(table, "trackers"@)
    &&& texts(filters.excluded_trackers@) == listed(table, "excluded_trackers"@)
    &&& filters.all_status == takes_all(table, "all_status"@, "status"@)
    &&& is_selector(listed(table, "status"@), filters.status)
    &&& is_selector(listed(table, "excluded_status"@), filters.excluded_status)
}

/// Whether conditions are those that the first `count` entries of a strategy state, in their order.
pub open spec fn are_conditions(
    table: TableView,
    count: nat,
    conditions: Seq<ConditionSpec>,
) -> bool {
    let places = condition_places(table, count);
    &&& conditions.len() == places.len()
    &&& forall|i: int|
        0 <= i < places.len() ==> states(
            table[places[i]].0,
            table[places[i]].1,
            #[trigger] conditions[i],
        )
}

/// Whether a strategy is the one that a table states.
pub open spec fn is_strategy(table: TableView, strategy: StrategyConfig) -> bool {
    &&& entry_of(table, "name"@) == Some(ItemView::Text(strategy.name@))
    &&& are_filters(table, strategy.filters)
    &&& are_conditions(table, table.len(), strategy.conditions@)
}

proof fn lemma_no_fault(table: TableView, count: nat, key: Seq<char>)
    requires
        count <= table.len(),
        first_fault(table, count) is None,
    ensures
        entry_of(table.take(count as int), key) matches Some(item) ==> entry_fault(key, item) is None,
    decreases count,
{
    if count > 0 {
        lemma_no_fault(table, (count - 1) as nat, key);
        assert(table.take(count as int).last() == table[count - 1]);
        assert(table.take(count as int).drop_last() =~= table.take(count - 1));
    }
}

proof fn lemma_fault_stays(table: TableView, low: nat, high: nat)
    requires
        low <= high,
        first_fault(table, low) is Some,
    ensures
        first_fault(table, high) == first_fault(table, low),
    decreases high,
{
    if low < high {
        lemma_fault_stays(table, low, (high - 1) as nat);
    }
}

fn get_switch(table: &Vec<ConfigEntry>, switch: &str, list: &str) -> (all: bool)
    requires
        entry_of(table_says(table@), switch@) matches Some(item) ==> boolean_of(item, switch@) is Ok,
    ensures
        all == takes_all(table_says(table@), switch@, list@),
{
    match find_entry(table, switch) {
        Some(ConfigItem::Boolean(boolean)) => *boolean,
        _ => find_entry(table, list).is_none(),
    }
}

fn get_list(table: &Vec<ConfigEntry>, key: &str) -> (list: Vec<String>)
    requires
        entry_of(table_says(table@), key@) matches Some(item) ==> texts_of(item, key@) is Ok,
    ensures
        texts(list@) == listed(table_says(table@), key@),
{
    if let Some(item) = find_entry(table, key) {
        if let Ok(list) = parse_string_list(item, key) {
            return list;
        }
    }
    let list: Vec<String> = Vec::new();
    assert(texts(list@) =~= Seq::<Seq<char>>::empty());
    list
}

fn get_selector(table: &Vec<ConfigEntry>, key: &str) -> (selector: StatusSelector)
    requires
        entry_of(table_says(table@), key@) matches Some(item) ==> texts_of(item, key@) is Ok,
    ensures
        is_selector(listed(table_says(table@), key@), selector),
{
    if let Some(item) = find_entry(table, key) {
        if let Ok(selector) = parse_status_selector(item, key) {
            return selector;
        }
    }
    no_status()
}

fn switch_key(key: &str) -> (is: bool)
    ensures
        is == is_switch(key@),
{
    same_text(key, "all_categories") || same_text(key, "all_trackers") || same_text(
        key,
        "all_status",
    )
}

fn list_key(key: &str) -> (is: bool)
    ensures
        is == is_list(key@),
{
    same_text(key, "categories") || same_text(key, "excluded_categories") || same_text(
        key,
        "trackers",
    ) || same_text(key, "excluded_trackers") || same_text(key, "status") || same_text(
        key,
        "excluded_status",
    )
}

/// Checks an entry of a strategy, and reads the condition that it states, if any.
fn read_entry(key: &str, item: &ConfigItem) -> (outcome: Result<
    Option<ConditionSpec>,
    ConfigError,
>)
    ensures
        match outcome {
            Ok(condition) => {
                &&& entry_fault(key@, item_says(*item)) is None
                &&& condition is Some == is_condition_entry(key@)
                &&& condition is Some ==> states(key@, item_says(*item), condition->0)
            },
            Err(error) => entry_fault(key@, item_says(*item)) == Some(error@),
        },
{
    if same_text(key, "name") {
        return match parse_string_item(item, "tasks.strategies.name") {
            Ok(_) => Ok(None),
            Err(error) => Err(error),
        };
    }
    if switch_key(key) {
        return match parse_bool_item(item, key) {
            Ok(_) => Ok(None),
            Err(error) => Err(error),
        };
    }
    if list_key(key) {
        return match parse_string_list(item, key) {
            Ok(_) => Ok(None),
            Err(error) => Err(error),
        };
    }
    parse_condition(key, item)
}

/// Reads a strategy. Its conditions keep the order of their entries; of the filters that it leaves
/// out, those by category, tracker and status take all there is.
pub fn parse_strategy(table: &Vec<ConfigEntry>) -> (outcome: Result<StrategyConfig, ConfigError>)
    ensures
        match outcome {
            Ok(strategy) => strategy_fault(table_says(table@)) is None && is_strategy(
                table_says(table@),
                strategy,
            ),
            Err(error) => strategy_fault(table_says(table@)) == Some(error@),
        },
{
    let ghost view = table_says(table@);
    let mut conditions: Vec<ConditionSpec> = Vec::new();
    let mut i: usize = 0;
    proof {
        lemma_table_says(table@);
    }
    while i < table.len()
        invariant
            i <= table@.len(),
            view == table_says(table@),
            view.len() == table@.len(),
            forall|j: int|
                0 <= j < table@.len() ==> #[trigger] view[j] == (
                    table@[j].key@,
                    item_says(table@[j].item),
                ),
            first_fault(view, i as nat) is None,
            are_conditions(view, i as nat, conditions@),
        decreases table.len() - i,
    {
        let ghost before = conditions@;
        let ghost places = condition_places(view, i as nat);
        assert(view[i as int].0 == table@[i as int].key@);
        match read_entry(table[i].key.as_str(), &table[i].item) {
            Err(error) => {
                proof {
                    lemma_fault_stays(view, (i + 1) as nat, view.len());
                }
                return Err(error);
            },
            Ok(Some(condition)) => {
                conditions.push(condition);
                proof {
                    let after = condition_places(view, (i + 1) as nat);
                    assert forall|k: int| 0 <= k < after.len() implies states(
                        view[after[k]].0,
                        view[after[k]].1,
                        #[trigger] conditions@[k],
                    ) by {
                        if k < places.len() {
                            assert(after[k] == places[k]);
                            assert(conditions@[k] == before[k]);
                        }
                    }
                }
            },
            Ok(None) => {},
        }
        i = i + 1;
    }
    proof {
        assert(view.take(view.len() as int) =~= view);
        lemma_no_fault(view, view.len(), "name"@);
        lemma_no_fault(view, view.len(), "all_categories"@);
        lemma_no_fault(view, view.len(), "all_trackers"@);
        lemma_no_fault(view, view.len(), "all_status"@);
        lemma_no_fault(view, view.len(), "categories"@);
        lemma_no_fault(view, view.len(), "excluded_categories"@);
        lemma_no_fault(view, view.len(), "trackers"@);
        lemma_no_fault(view, view.len(), "excluded_trackers"@);
        lemma_no_fault(view, view.len(), "status"@);
        lemma_no_fault(view, view.len(), "excluded_status"@);
        lemma_keys_differ();
    }
    let name = match find_entry(table, "name") {
        Some(ConfigItem::Text(name)) => name.clone(),
        _ => {
            return Err(ConfigError::NoStrategyName);
        },
    };
    let filters = FilterConfig {
        all_categories: get_switch(table, "all_categories", "categories"),
        categories: get_list(table, "categories"),
        excluded_categories: get_list(table, "excluded_categories"),
        all_trackers: get_switch(table, "all_trackers", "trackers"),
        trackers: get_list(table, "trackers"),
        excluded_trackers: get_list(table, "excluded_trackers"),
        all_status: get_switch(table, "all_status", "status"),
        status: get_selector(table, "status"),
        excluded_status: get_selector(table, "excluded_status"),
    };
    Ok(StrategyConfig { name, filters, conditions })
}

/// The keys of a strategy that are no conditions are told apart.
proof fn lemma_keys_differ()
    ensures
        !is_switch("name"@),
        !is_list("name"@),
        "all_categories"@ != "name"@,
        "all_trackers"@ != "name"@,
        "all_status"@ != "name"@,
        "categories"@ != "name"@,
        "excluded_categories"@ != "name"@,
        "trackers"@ != "name"@,
        "excluded_trackers"@ != "name"@,
        "status"@ != "name"@,
        "excluded_status"@ != "name"@,
        !is_switch("categories"@),
        !is_switch("excluded_categories"@),
        !is_switch("trackers"@),
        !is_switch("excluded_trackers"@),
        !is_switch("status"@),
        !is_switch("excluded_status"@),
{
    reveal_strlit("name");
    reveal_strlit("all_categories");
    reveal_strlit("all_trackers");
    reveal_strlit("all_status");
    reveal_strlit("categories");
    reveal_strlit("excluded_categories");
    reveal_strlit("trackers");
    reveal_strlit("excluded_trackers");
    reveal_strlit("status");
    reveal_strlit("excluded_status");
    assert("all_categories"@[0] == 'a');
    assert("all_trackers"@[0] == 'a');
    assert("all_status"@[0] == 'a');
    assert("name"@[0] == 'n');
    assert("categories"@[0] == 'c');
    assert("excluded_categories"@[0] == 'e');
    assert("trackers"@[0] == 't');
    assert("excluded_trackers"@[0] == 'e');
    assert("status"@[0] == 's');
    assert("excluded_status"@[0] == 'e');
}

/// The name that a table holds.
pub open spec fn name_of(table: TableView) -> Seq<char> {
    entry_of(table, "name"@)->0->Text_0
}

/// What is wrong with the first of the first `count` strategies of a task that is wrong.
pub open spec fn strategies_fault(
    task: Seq<char>,
    tables: Seq<TableView>,
    count: nat,
) -> Option<FaultView>
    decreases count,
{
    if count == 0 {
        None
    } else {
        match strategies_fault(task, tables, (count - 1) as nat) {
            Some(fault) => Some(fault),
            None => match strategy_fault(tables[count - 1]) {
                Some(fault) => Some(fault),
                None => if exists|j: int|
                    0 <= j < count - 1 && name_of(#[trigger] tables[j]) == name_of(
                        tables[count - 1],
                    ) {
                    Some(FaultView::DuplicateStrategy(task, name_of(tables[count - 1])))
                } else {
                    None
                },
            },
        }
    }
}

/// What is wrong with a task.
pub open spec fn task_fault(table: TableView) -> Option<FaultView> {
    match required_text(table, "name"@, "tasks.name"@) {
        Err(fault) => Some(fault),
        Ok(name) => match optional_boolean(table, "delete_data"@) {
            Err(fault) => Some(fault),
            Ok(_) => match entry_of(table, "strategies"@) {
                None => Some(FaultView::NoStrategies(name)),
                Some(ItemView::Tables(tables)) => if tables.len() == 0 {
                    Some(FaultView::NoStrategies(name))
                } else {
                    strategies_fault(name, tables, tables.len())
                },
                Some(_) => Some(FaultView::StrategiesNotTables(name)),
            },
        },
    }
}

/// Whether a task is the one that a table states.
pub open spec fn is_task(table: TableView, task: AutoremoveTask) -> bool {
    &&& entry_of(table, "name"@) == Some(ItemView::Text(task.name@))
    &&& task.delete_data == (optional_boolean(table, "delete_data"@) == Ok::<
        Option<bool>,
        FaultView,
    >(Some(true)))
    &&& entry_of(table, "strategies"@) matches Some(ItemView::Tables(tables))
        && task.strategies@.len() == tables.len() && forall|i: int|
        0 <= i < tables.len() ==> is_strategy(tables[i], #[trigger] task.strategies@[i])
}

proof fn lemma_strategies_fault_stays(
    task: Seq<char>,
    tables: Seq<TableView>,
    low: nat,
    high: nat,
)
    requires
        low <= high,
        strategies_fault(task, tables, low) is Some,
    ensures
        strategies_fault(task, tables, high) == strategies_fault(task, tables, low),
    decreases high,
{
    if low < high {
        lemma_strategies_fault_stays(task, tables, low, (high - 1) as nat);
    }
}

fn parse_strategies(task: &str, tables: &Vec<Vec<ConfigEntry>>) -> (outcome: Result<
    Vec<StrategyConfig>,
    ConfigError,
>)
    ensures
        ({
            let views = tables_say(tables@);
            match outcome {
                Ok(strategies) => {
                    &&& strategies_fault(task@, views, views.len()) is None
                    &&& strategies@.len() == views.len()
                    &&& forall|i: int|
                        0 <= i < views.len() ==> is_strategy(views[i], #[trigger] strategies@[i])
                },
                Err(error) => strategies_fault(task@, views, views.len()) == Some(error@),
            }
        }),
{
    let ghost views = tables_say(tables@);
    let mut strategies: Vec<StrategyConfig> = Vec::new();
    let mut i: usize = 0;
    proof {
        lemma_tables_say(tables@);
    }
    while i < tables.len()
        invariant
            i <= tables@.len(),
            views == tables_say(tables@),
            views.len() == tables@.len(),
            forall|j: int|
                0 <= j < tables@.len() ==> #[trigger] views[j] == table_says(tables@[j]@),
            strategies_fault(task@, views, i as nat) is None,
            strategies@.len() == i,
            forall|j: int| 0 <= j < i ==> is_strategy(views[j], #[trigger] strategies@[j]),
        decreases tables.len() - i,
    {
        assert(views[i as int] == table_says(tables@[i as int]@));
        let strategy = match parse_strategy(&tables[i]) {
            Ok(strategy) => strategy,
            Err(error) => {
                proof {
                    lemma_strategies_fault_stays(task@, views, (i + 1) as nat, views.len());
                }
                return Err(error);
            },
        };
        let mut j: usize = 0;
        while j < strategies.len()
            invariant
                j <= strategies@.len(),
                i < views.len(),
                views == tables_say(tables@),
                strategies@.len() == i,
                forall|k: int| 0 <= k < i ==> is_strategy(views[k], #[trigger] strategies@[k]),
                is_strategy(views[i as int], strategy),
                strategy_fault(views[i as int]) is None,
                strategies_fault(task@, views, i as nat) is None,
                forall|k: int| 0 <= k < j ==> name_of(#[trigger] views[k]) != strategy.name@,
            decreases strategies.len() - j,
        {
            assert(is_strategy(views[j as int], strategies@[j as int]));
            if strategies[j].name == strategy.name {
                proof {
                    assert(name_of(views[j as int]) == name_of(views[i as int]));
                    lemma_strategies_fault_stays(task@, views, (i + 1) as nat, views.len());
                }
                return Err(
                    ConfigError::DuplicateStrategy(String::from_str(task), strategy.name),
                );
            }
            j = j + 1;
        }
        strategies.push(strategy);
        i = i + 1;
    }
    Ok(strategies)
}

/// Reads a task. Its strategies keep their order, and no two of them have one name.
pub fn parse_task(table: &Vec<ConfigEntry>) -> (outcome: Result<AutoremoveTask, ConfigError>)
    ensures
        match outcome {
            Ok(task) => task_fault(table_says(table@)) is None && is_task(table_says(table@), task),
            Err(error) => task_fault(table_says(table@)) == Some(error@),
        },
{
    let name = match get_required_string(table, "name", "tasks.name") {
        Ok(name) => name,
        Err(error) => {
            return Err(error);
        },
    };
    let delete_data: bool = match get_optional_bool(table, "delete_data") {
        Ok(Some(delete_data)) => delete_data,
        Ok(None) => false,
        Err(error) => {
            return Err(error);
        },
    };
    match find_entry(table, "strategies") {
        None => Err(ConfigError::NoStrategies(name)),
        Some(ConfigItem::Tables(tables)) => {
            proof {
                lemma_tables_say(tables@);
            }
            if tables.len() == 0 {
                return Err(ConfigError::NoStrategies(name));
            }
            match parse_strategies(name.as_str(), tables) {
                Ok(strategies) => Ok(AutoremoveTask { name, delete_data, strategies }),
                Err(error) => Err(error),
            }
        },
        Some(_) => Err(ConfigError::StrategiesNotTables(name)),
    }
}

/// What is wrong with the first of the first `count` tasks that is wrong.
pub open spec fn tasks_fault(tables: Seq<TableView>, count: nat) -> Option<FaultView>
    decreases count,
{
    if count == 0 {
        None
    } else {
        match tasks_fault(tables, (count - 1) as nat) {
            Some(fault) => Some(fault),
            None => match task_fault(tables[count - 1]) {
                Some(fault) => Some(fault),
                None => if exists|j: int|
                    0 <= j < count - 1 && name_of(#[trigger] tables[j]) == name_of(
                        tables[count - 1],
                    ) {
                    Some(FaultView::DuplicateTask(name_of(tables[count - 1])))
                } else {
                    None
                },
            },
        }
    }
}

/// The tables of the tasks.
pub open spec fn task_tables(root: TableView) -> Result<Seq<TableView>, FaultView> {
    match entry_of(root, "tasks"@) {
        None => Err(FaultView::NoTasks),
        Some(ItemView::Tables(tables)) => match tasks_fault(tables, tables.len()) {
            Some(fault) => Err(fault),
            None => Ok(tables),
        },
        Some(_) => Err(FaultView::TasksNotTables),
    }
}

proof fn lemma_tasks_fault_stays(tables: Seq<TableView>, low: nat, high: nat)
    requires
        low <= high,
        tasks_fault(tables, low) is Some,
    ensures
        tasks_fault(tables, high) == tasks_fault(tables, low),
    decreases high,
{
    if low < high {
        lemma_tasks_fault_stays(tables, low, (high - 1) as nat);
    }
}

/// Reads the tasks of a configuration. They keep their order, and no two of them have one name.
pub fn parse_tasks(root: &Vec<ConfigEntry>) -> (outcome: Result<Vec<AutoremoveTask>, ConfigError>)
    ensures
        match outcome {
            Ok(tasks) => task_tables(table_says(root@)) matches Ok(tables) && tasks@.len()
                == tables.len() && forall|i: int|
                0 <= i < tables.len() ==> is_task(tables[i], #[trigger] tasks@[i]),
            Err(error) => task_tables(table_says(root@)) == Err::<Seq<TableView>, FaultView>(
                error@,
            ),
        },
{
    let tables = match find_entry(root, "tasks") {
        None => {
            return Err(ConfigError::NoTasks);
        },
        Some(ConfigItem::Tables(tables)) => tables,
        Some(_) => {
            return Err(ConfigError::TasksNotTables);
        },
    };
    let ghost views = tables_say(tables@);
    let mut tasks: Vec<AutoremoveTask> = Vec::new();
    let mut i: usize = 0;
    proof {
        lemma_tables_say(tables@);
    }
    while i < tables.len()
        invariant
            i <= tables@.len(),
            entry_of(table_says(root@), "tasks"@) == Some(ItemView::Tables(views)),
            views == tables_say(tables@),
            views.len() == tables@.len(),
            forall|j: int|
                0 <= j < tables@.len() ==> #[trigger] views[j] == table_says(tables@[j]@),
            tasks_fault(views, i as nat) is None,
            tasks@.len() == i,
            forall|j: int| 0 <= j < i ==> is_task(views[j], #[trigger] tasks@[j]),
        decreases tables.len() - i,
    {
        assert(views[i as int] == table_says(tables@[i as int]@));
        let task = match parse_task(&tables[i]) {
            Ok(task) => task,
            Err(error) => {
                proof {
                    lemma_tasks_fault_stays(views, (i + 1) as nat, views.len());
                }
                return Err(error);
            },
        };
        let mut j: usize = 0;
        while j < tasks.len()
            invariant
                j <= tasks@.len(),
                i < views.len(),
                entry_of(table_says(root@), "tasks"@) == Some(ItemView::Tables(views)),
                tasks@.len() == i,
                forall|k: int| 0 <= k < i ==> is_task(views[k], #[trigger] tasks@[k]),
                is_task(views[i as int], task),
                task_fault(views[i as int]) is None,
                tasks_fault(views, i as nat) is None,
                forall|k: int| 0 <= k < j ==> name_of(#[trigger] views[k]) != task.name@,
            decreases tasks.len() - j,
        {
            assert(is_task(views[j as int], tasks@[j as int]));
            if tasks[j].name == task.name {
                proof {
                    assert(name_of(views[j as int]) == name_of(views[i as int]));
                    lemma_tasks_fault_stays(views, (i + 1) as nat, views.len());
                }
                return Err(ConfigError::DuplicateTask(task.name));
            }
            j = j + 1;
        }
        tasks.push(task);
        i = i + 1;
    }
    Ok(tasks)
}

/// What the configuration says on how to reach qBittorrent: host, user name and password.
pub open spec fn client_of(root: TableView) -> Result<
    (Seq<char>, Seq<char>, Seq<char>),
    FaultView,
> {
    match entry_of(root, "client"@) {
        Some(ItemView::Table(client)) => match required_text(client, "host"@, "client.host"@) {
            Err(fault) => Err(fault),
            Ok(host) => match required_text(client, "username"@, "client.username"@) {
                Err(fault) => Err(fault),
                Ok(username) => match required_text(client, "password"@, "client.password"@) {
                    Err(fault) => Err(fault),
                    Ok(password) => Ok((host, username, password)),
                },
            },
        },
        _ => Err(FaultView::NoClient),
    }
}

/// Reads how to reach qBittorrent.
pub fn parse_client_config(root: &Vec<ConfigEntry>) -> (outcome: Result<ClientConfig, ConfigError>)
    ensures
        match outcome {
            Ok(client) => client_of(table_says(root@)) == Ok::<
                (Seq<char>, Seq<char>, Seq<char>),
                FaultView,
            >((client.host@, client.username@, client.password@)),
            Err(error) => client_of(table_says(root@)) == Err::<
                (Seq<char>, Seq<char>, Seq<char>),
                FaultView,
            >(error@),
        },
{
    let client = match find_entry(root, "client") {
        Some(ConfigItem::Table(client)) => client,
        _ => {
            return Err(ConfigError::NoClient);
        },
    };
    let host = match get_required_string(client, "host", "client.host") {
        Ok(host) => host,
        Err(error) => {
            return Err(error);
        },
    };
    let username = match get_required_string(client, "username", "client.username") {
        Ok(username) => username,
        Err(error) => {
            return Err(error);
        },
    };
    match get_required_string(client, "password", "client.password") {
        Ok(password) => Ok(ClientConfig { host, username, password }),
        Err(error) => Err(error),
    }
}

/// What is wrong with a configuration.
pub open spec fn config_fault(root: TableView) -> Option<FaultView> {
    match client_of(root) {
        Err(fault) => Some(fault),
        Ok(_) => match task_tables(root) {
            Err(fault) => Some(fault),
            Ok(tables) => if tables.len() == 0 {
                Some(FaultView::EmptyTasks)
            } else {
                None
            },
        },
    }
}

/// Whether a configuration is the one that a document states.
pub open spec fn is_config(root: TableView, config: AutoremoveConfig) -> bool {
    &&& client_of(root) == Ok::<(Seq<char>, Seq<char>, Seq<char>), FaultView>(
        (config.client.host@, config.client.username@, config.client.password@),
    )
    &&& task_tables(root) matches Ok(tables) && config.tasks@.len() == tables.len() && forall|
        i: int,
    |
        0 <= i < tables.len() ==> is_task(tables[i], #[trigger] config.tasks@[i])
}

/// Reads the configuration of the removal tasks from the root table of its document.
pub fn parse_config(root: &Vec<ConfigEntry>) -> (outcome: Result<AutoremoveConfig, ConfigError>)
    ensures
        match outcome {
            Ok(config) => config_fault(table_says(root@)) is None && is_config(
                table_says(root@),
                config,
            ),
            Err(error) => config_fault(table_says(root@)) == Some(error@),
        },
{
    let client = match parse_client_config(root) {
        Ok(client) => client,
        Err(error) => {
            return Err(error);
        },
    };
    let tasks = match parse_tasks(root) {
        Ok(tasks) => tasks,
        Err(error) => {
            return Err(error);
        },
    };
    if tasks.len() == 0 {
        return Err(ConfigError::EmptyTasks);
    }
    Ok(AutoremoveConfig { client, tasks })
}

/// Reads the configuration of the removal tasks.
pub fn load_config(raw: &str) -> (outcome: Result<AutoremoveConfig, ConfigError>)
    ensures
        match outcome {
            Ok(config) => toml_document(raw@) matches Ok(root) && config_fault(root) is None
                && is_config(root, config),
            Err(error) => match toml_document(raw@) {
                Ok(root) => config_fault(root) == Some(error@),
                Err(message) => error@ == FaultView::Syntax(message),
            },
        },
{
    match read_document(raw) {
        Ok(root) => parse_config(&root),
        Err(message) => Err(ConfigError::Syntax(message)),
    }
}

/// Whether a text stands for a variable of the environment: `$(NAME)`.
pub open spec fn is_reference(value: Seq<char>) -> bool {
    value.len() >= 3 && value[0] == '$' && value[1] == '(' && value.last() == ')'
}

/// The name of the variable that a text of the form `$(NAME)` stands for.
pub fn referenced_variable(value: &str) -> (name: Option<String>)
    ensures
        match name {
            Some(name) => is_reference(value@) && name@ == value@.subrange(2, value@.len() - 1),
            None => !is_reference(value@),
        },
{
    let chars = chars_of(value);
    let len: usize = chars.len();
    if len >= 3 && chars[0] == '$' && chars[1] == '(' && chars[len - 1] == ')' {
        Some(value.substring_char(2, len - 1).to_owned())
    } else {
        None
    }
}

/// What a text stands for, given the variable that it refers to: the variable if the text refers to
/// one that is set, else the text itself.
pub fn resolve_env(value: String, variable: Option<String>) -> (resolved: String)
    ensures
        resolved@ == (if is_reference(value@) && variable is Some {
            variable->0@
        } else {
            value@
        }),
{
    if referenced_variable(value.as_str()).is_none() {
        return value;
    }
    match variable {
        Some(text) => text,
        None => value,
    }
}

proof fn lemma_task_names_differ(tables: Seq<TableView>, count: nat)
    requires
        count <= tables.len(),
        tasks_fault(tables, count) is None,
    ensures
        forall|i: int, j: int|
            0 <= i < j < count ==> name_of(#[trigger] tables[i]) != name_of(#[trigger] tables[j]),
        forall|i: int| 0 <= i < count ==> task_fault(#[trigger] tables[i]) is None,
    decreases count,
{
    if count > 0 {
        lemma_task_names_differ(tables, (count - 1) as nat);
    }
}

proof fn lemma_strategy_names_differ(task: Seq<char>, tables: Seq<TableView>, count: nat)
    requires
        count <= tables.len(),
        strategies_fault(task, tables, count) is None,
    ensures
        forall|i: int, j: int|
            0 <= i < j < count ==> name_of(#[trigger] tables[i]) != name_of(#[trigger] tables[j]),
    decreases count,
{
    if count > 0 {
        lemma_strategy_names_differ(task, tables, (count - 1) as nat);
    }
}

/// A configuration has a task at least, each task has a strategy at least, no two tasks have one
/// name, and no two strategies of a task have one name.
pub proof fn law_names_are_distinct(root: TableView, config: AutoremoveConfig)
    requires
        config_fault(root) is None,
        is_config(root, config),
    ensures
        config.tasks@.len() > 0,
        forall|i: int, j: int|
            0 <= i < j < config.tasks@.len() ==> (#[trigger] config.tasks@[i]).name@ != (
            #[trigger] config.tasks@[j]).name@,
        forall|i: int|
            0 <= i < config.tasks@.len() ==> (#[trigger] config.tasks@[i]).strategies@.len() > 0,
        forall|i: int, j: int, k: int|
            0 <= i < config.tasks@.len() && 0 <= j < k < config.tasks@[i].strategies@.len() ==> (
            #[trigger] config.tasks@[i].strategies@[j]).name@ != (
            #[trigger] config.tasks@[i].strategies@[k]).name@,
{
    let tables = task_tables(root)->Ok_0;
    lemma_task_names_differ(tables, tables.len());
    assert forall|i: int, j: int| 0 <= i < j < config.tasks@.len() implies (
    #[trigger] config.tasks@[i]).name@ != (#[trigger] config.tasks@[j]).name@ by {
        assert(is_task(tables[i], config.tasks@[i]));
        assert(is_task(tables[j], config.tasks@[j]));
        assert(name_of(tables[i]) != name_of(tables[j]));
    }
    assert forall|i: int| 0 <= i < config.tasks@.len() implies (
    #[trigger] config.tasks@[i]).strategies@.len() > 0 by {
        assert(is_task(tables[i], config.tasks@[i]));
        assert(task_fault(tables[i]) is None);
    }
    assert forall|i: int, j: int, k: int|
        0 <= i < config.tasks@.len() && 0 <= j < k < config.tasks@[i].strategies@.len() implies (
    #[trigger] config.tasks@[i].strategies@[j]).name@ != (
    #[trigger] config.tasks@[i].strategies@[k]).name@ by {
        let task = config.tasks@[i];
        assert(is_task(tables[i], task));
        assert(task_fault(tables[i]) is None);
        let strategies = entry_of(tables[i], "strategies"@)->0->Tables_0;
        lemma_strategy_names_differ(task.name@, strategies, strategies.len());
        assert(is_strategy(strategies[j], task.strategies@[j]));
        assert(is_strategy(strategies[k], task.strategies@[k]));
        assert(name_of(strategies[j]) != name_of(strategies[k]));
    }
}

/// One text can be written by itself instead of in an array.
pub proof fn law_one_text_is_a_list(text: Seq<char>, context: Seq<char>)
    ensures
        texts_of(ItemView::Text(text), context) == texts_of(
            ItemView::Array(seq![ItemView::Text(text)]),
            context,
        ),
{
    let items = seq![ItemView::Text(text)];
    assert(Seq::new(items.len(), |i: int| items[i]->Text_0) =~= seq![text]);
}

/// The names of the actions, whatever the case of their letters.
pub proof fn law_actions_have_names(word: Seq<char>)
    ensures
        action_of(word) == Some(SortAction::RemoveOldSeeds) <==> lower(word) == "remove-old-seeds"@,
        action_of(word) == Some(SortAction::RemoveNewSeeds) <==> lower(word) == "remove-new-seeds"@,
        action_of(word) == Some(SortAction::RemoveBigSeeds) <==> lower(word) == "remove-big-seeds"@,
        action_of(word) == Some(SortAction::RemoveSmallSeeds) <==> lower(word)
            == "remove-small-seeds"@,
        action_of(word) == Some(SortAction::RemoveActiveSeeds) <==> lower(word)
            == "remove-active-seeds"@,
        action_of(word) == Some(SortAction::RemoveInactiveSeeds) <==> lower(word)
            == "remove-inactive-seeds"@,
        action_of(word) == Some(SortAction::RemoveFastUploadSeeds) <==> lower(word)
            == "remove-fast-upload-seeds"@,
        action_of(word) == Some(SortAction::RemoveSlowUploadSeeds) <==> lower(word)
            == "remove-slow-upload-seeds"@,
{
    reveal_strlit("remove-old-seeds");
    reveal_strlit("remove-new-seeds");
    reveal_strlit("remove-big-seeds");
    reveal_strlit("remove-small-seeds");
    reveal_strlit("remove-active-seeds");
    reveal_strlit("remove-inactive-seeds");
    reveal_strlit("remove-fast-upload-seeds");
    reveal_strlit("remove-slow-upload-seeds");
    assert("remove-old-seeds"@.len() == 16 && "remove-old-seeds"@[7] == 'o');
    assert("remove-new-seeds"@.len() == 16 && "remove-new-seeds"@[7] == 'n');
    assert("remove-big-seeds"@.len() == 16 && "remove-big-seeds"@[7] == 'b');
    assert("remove-small-seeds"@.len() == 18);
    assert("remove-active-seeds"@.len() == 19);
    assert("remove-inactive-seeds"@.len() == 21);
    assert("remove-fast-upload-seeds"@.len() == 24 && "remove-fast-upload-seeds"@[7] == 'f');
    assert("remove-slow-upload-seeds"@.len() == 24 && "remove-slow-upload-seeds"@[7] == 's');
}

/// Whether a word is among others, whatever the case of their letters.
pub open spec fn says(words: Seq<Seq<char>>, word: Seq<char>) -> bool {
    exists|i: int| 0 <= i < words.len() && lower(#[trigger] words[i]) == word
}

/// The words that select statuses: those of the statuses themselves, and `stalledupload` and
/// `stalleddownload`, whatever the case of their letters. Other words select nothing.
pub proof fn law_statuses_have_names(words: Seq<Seq<char>>, selector: StatusSelector)
    requires
        is_selector(words, selector),
    ensures
        selector.stalled_upload <==> says(words, "stalledupload"@),
        selector.stalled_download <==> says(words, "stalleddownload"@),
        selector.statuses@.contains(TorrentStatus::Downloading) <==> says(words, "downloading"@),
        selector.statuses@.contains(TorrentStatus::Uploading) <==> says(words, "uploading"@),
        selector.statuses@.contains(TorrentStatus::Checking) <==> says(words, "checking"@),
        selector.statuses@.contains(TorrentStatus::Queued) <==> says(words, "queued"@),
        selector.statuses@.contains(TorrentStatus::Paused) <==> says(words, "paused"@),
        selector.statuses@.contains(TorrentStatus::Stopped) <==> says(words, "stopped"@),
        selector.statuses@.contains(TorrentStatus::Error) <==> says(words, "error"@),
        selector.statuses@.contains(TorrentStatus::Unknown) <==> says(words, "unknown"@),
{
    lemma_status_words(words, TorrentStatus::Downloading, "downloading"@);
    lemma_status_words(words, TorrentStatus::Uploading, "uploading"@);
    lemma_status_words(words, TorrentStatus::Checking, "checking"@);
    lemma_status_words(words, TorrentStatus::Queued, "queued"@);
    lemma_status_words(words, TorrentStatus::Paused, "paused"@);
    lemma_status_words(words, TorrentStatus::Stopped, "stopped"@);
    lemma_status_words(words, TorrentStatus::Error, "error"@);
    lemma_status_words(words, TorrentStatus::Unknown, "unknown"@);
}

proof fn lemma_status_words(words: Seq<Seq<char>>, status: TorrentStatus, name: Seq<char>)
    requires
        name == (match status {
            TorrentStatus::Downloading => "downloading"@,
            TorrentStatus::Uploading => "uploading"@,
            TorrentStatus::Checking => "checking"@,
            TorrentStatus::Queued => "queued"@,
            TorrentStatus::Paused => "paused"@,
            TorrentStatus::Stopped => "stopped"@,
            TorrentStatus::Error => "error"@,
            TorrentStatus::Unknown => "unknown"@,
        }),
    ensures
        names_status(words, status) <==> says(words, name),
{
    reveal_strlit("downloading");
    reveal_strlit("uploading");
    reveal_strlit("checking");
    reveal_strlit("queued");
    reveal_strlit("paused");
    reveal_strlit("stopped");
    reveal_strlit("error");
    reveal_strlit("unknown");
    assert("downloading"@[0] == 'd');
    assert("uploading"@[0] == 'u' && "uploading"@.len() == 9);
    assert("checking"@[0] == 'c');
    assert("queued"@[0] == 'q');
    assert("paused"@[0] == 'p');
    assert("stopped"@[0] == 's');
    assert("error"@[0] == 'e');
    assert("unknown"@[0] == 'u' && "unknown"@.len() == 7);
    assert forall|word: Seq<char>| #[trigger] status_named(word) == Some(status) <==> lower(word)
        == name by {}
    if names_status(words, status) {
        let i = choose|i: int|
            0 <= i < words.len() && status_named(#[trigger] words[i]) == Some(status);
        assert(lower(words[i]) == name);
    }
    if says(words, name) {
        let i = choose|i: int| 0 <= i < words.len() && lower(#[trigger] words[i]) == name;
        assert(status_named(words[i]) == Some(status));
    }
}

/// Whether an item is a number: a float, or an integer.
pub open spec fn is_number(item: ItemView, number: Number) -> bool {
    item == ItemView::Float(number) || (item matches ItemView::Integer(integer) && number
        == of_integer(integer as int))
}

/// Whether a table holds a number under a key.
pub open spec fn has_number(table: TableView, key: Seq<char>, number: Number) -> bool {
    entry_of(table, key) matches Some(item) && is_number(item, number)
}

/// Whether a table names an action.
pub open spec fn has_action(table: TableView, action: SortAction) -> bool {
    entry_of(table, "action"@) matches Some(ItemView::Text(word)) && action_of(word) == Some(action)
}

/// Which keyword stands for which condition, and what its item has to be: the limit of most conditions
/// is a number; the last activity is held against a number of seconds or the word `never` or `none`;
/// the conditions on a whole list are tables; and an expression is a text.
pub proof fn law_keywords_stand_for_conditions(
    key: Seq<char>,
    item: ItemView,
    condition: ConditionSpec,
)
    requires
        is_condition_key(key),
        states(key, item, condition),
    ensures
        match condition {
            ConditionSpec::Nothing => key == "nothing"@,
            ConditionSpec::Ratio(limit) => key == "ratio"@ && is_number(item, limit),
            ConditionSpec::CreateTime(limit) => key == "create_time"@ && is_number(item, limit),
            ConditionSpec::DownloadingTime(limit) => key == "downloading_time"@ && is_number(
                item,
                limit,
            ),
            ConditionSpec::SeedingTime(limit) => key == "seeding_time"@ && is_number(item, limit),
            ConditionSpec::MaxDownload(limit) => key == "max_download"@ && is_number(item, limit),
            ConditionSpec::MaxDownloadSpeed(limit) => key == "max_downloadspeed"@ && is_number(
                item,
                limit,
            ),
            ConditionSpec::MinUploadSpeed(limit) => key == "min_uploadspeed"@ && is_number(
                item,
                limit,
            ),
            ConditionSpec::MaxAverageDownloadSpeed(limit) => key == "max_average_downloadspeed"@
                && is_number(item, limit),
            ConditionSpec::MinAverageUploadSpeed(limit) => key == "min_average_uploadspeed"@
                && is_number(item, limit),
            ConditionSpec::MaxSize(limit) => key == "max_size"@ && is_number(item, limit),
            ConditionSpec::MaxSeeder(limit) => key == "max_seeder"@ && is_number(item, limit),
            ConditionSpec::MaxUpload(limit) => key == "max_upload"@ && is_number(item, limit),
            ConditionSpec::MinLeecher(limit) => key == "min_leecher"@ && is_number(item, limit),
            ConditionSpec::MaxConnectedSeeder(limit) => key == "max_connected_seeder"@ && is_number(
                item,
                limit,
            ),
            ConditionSpec::MinConnectedLeecher(limit) => key == "min_connected_leecher"@
                && is_number(item, limit),
            ConditionSpec::LastActivity(LastActivityValue::Seconds(limit)) => key
                == "last_activity"@ && is_number(item, limit),
            ConditionSpec::LastActivity(LastActivityValue::Never) => key == "last_activity"@ && (
            item matches ItemView::Text(word) && (lower(word) == "never"@ || lower(word)
                == "none"@)),
            ConditionSpec::MaxProgress(limit) => key == "max_progress"@ && is_number(item, limit),
            ConditionSpec::UploadRatio(limit) => key == "upload_ratio"@ && is_number(item, limit),
            ConditionSpec::SeedSize { limit_gib, action } => key == "seed_size"@ && (
            item matches ItemView::Table(table) && has_number(table, "limit"@, limit_gib)
                && has_action(table, action)),
            ConditionSpec::MaximumNumber { limit, action } => key == "maximum_number"@ && (
            item matches ItemView::Table(table) && has_action(table, action) && exists|
                number: Number,
            | #[trigger]
                has_number(table, "limit"@, number) && !number.is_none() && number.amount() >= 0 && limit == number.floor_within(usize::MAX as nat)),
            ConditionSpec::FreeSpace { min_gib, path, action } => key == "free_space"@ && (
            item matches ItemView::Table(table) && has_number(table, "min"@, min_gib) && entry_of(
                table,
                "path"@,
            ) == Some(ItemView::Text(path@)) && has_action(table, action)),
            ConditionSpec::RemoteFreeSpace { min_gib, path, action } => key
                == "remote_free_space"@ && (item matches ItemView::Table(table) && has_number(
                table,
                "min"@,
                min_gib,
            ) && entry_of(table, "path"@) == Some(ItemView::Text(path@)) && has_action(
                table,
                action,
            )),
            ConditionSpec::Remove(expression) => key == "remove"@ && (item matches ItemView::Text(
                text,
            ) && expression_of(text) == Ok::<crate::expression::ExpressionView, ErrorView>(
                expression_view(expression),
            )),
        },
{
    if let ConditionSpec::MaximumNumber { limit, action } = condition {
        let table = item->Table_0;
        let number = required_number(table, "limit"@, "maximum_number.limit"@)->Ok_0;
        assert(has_number(table, "limit"@, number));
        law_integers_are_exact(0);
        law_whole_numbers_enclose(number, usize::MAX as nat);
    }
}

/// The keywords that state conditions.
pub proof fn law_conditions_have_keywords(key: Seq<char>)
    ensures
        is_condition_key(key) <==> {
            ||| key == "nothing"@
            ||| key == "ratio"@
            ||| key == "create_time"@
            ||| key == "downloading_time"@
            ||| key == "seeding_time"@
            ||| key == "max_download"@
            ||| key == "max_downloadspeed"@
            ||| key == "min_uploadspeed"@
            ||| key == "max_average_downloadspeed"@
            ||| key == "min_average_uploadspeed"@
            ||| key == "max_size"@
            ||| key == "max_seeder"@
            ||| key == "max_upload"@
            ||| key == "min_leecher"@
            ||| key == "max_connected_seeder"@
            ||| key == "min_connected_leecher"@
            ||| key == "last_activity"@
            ||| key == "max_progress"@
            ||| key == "upload_ratio"@
            ||| key == "seed_size"@
            ||| key == "maximum_number"@
            ||| key == "free_space"@
            ||| key == "remote_free_space"@
            ||| key == "remove"@
        },
{
}

/// What is wrong with the item of a keyword: the first thing that is not as it has to be.
pub proof fn law_conditions_are_checked(key: Seq<char>, item: ItemView)
    requires
        is_condition_key(key),
    ensures
        ({
            let fault = condition_fault(key, item);
            let number = item is Float || item is Integer;
            &&& key == "nothing"@ ==> fault is None
            &&& key == "last_activity"@ && item is Text ==> fault == (if lower(item->Text_0)
                == "never"@ || lower(item->Text_0) == "none"@ {
                None
            } else {
                Some(FaultView::NotNever)
            })
            &&& key == "last_activity"@ && !(item is Text) ==> fault == (if number {
                None
            } else {
                Some(FaultView::NotNumber(key))
            })
            &&& key == "remove"@ && !(item is Text) ==> fault == Some(FaultView::NotText(key))
            &&& key == "remove"@ && item is Text ==> fault == (match expression_of(item->Text_0) {
                Ok(_) => None,
                Err(error) => Some(FaultView::Expression(error)),
            })
            &&& (key == "seed_size"@ || key == "maximum_number"@ || key == "free_space"@ || key
                == "remote_free_space"@) && !(item is Table) ==> fault == Some(
                FaultView::NotTable(key),
            )
            &&& limit_condition(key, of_integer(0)) is Some ==> fault == (if number {
                None
            } else {
                Some(FaultView::NotNumber(key))
            })
        }),
{
    lemma_condition_keys_differ();
}

proof fn lemma_condition_keys_differ()
    ensures
        "nothing"@.len() == 7,
        "last_activity"@.len() == 13,
        "seed_size"@.len() == 9,
        "maximum_number"@.len() == 14 && "maximum_number"@[0] == 'm',
        "free_space"@.len() == 10 && "free_space"@[0] == 'f',
        "remote_free_space"@.len() == 17 && "remote_free_space"@[0] == 'r',
        "remove"@.len() == 6 && "remove"@[0] == 'r',
        "ratio"@.len() == 5,
        "create_time"@.len() == 11,
        "downloading_time"@.len() == 16,
        "seeding_time"@.len() == 12 && "seeding_time"@[0] == 's',
        "max_download"@.len() == 12 && "max_download"@[0] == 'm',
        "max_downloadspeed"@.len() == 17 && "max_downloadspeed"@[0] == 'm',
        "min_uploadspeed"@.len() == 15 && "min_uploadspeed"@[0] == 'm',
        "max_average_downloadspeed"@.len() == 25,
        "min_average_uploadspeed"@.len() == 23,
        "max_size"@.len() == 8 && "max_size"@[0] == 'm',
        "max_seeder"@.len() == 10 && "max_seeder"@[0] == 'm',
        "max_upload"@.len() == 10 && "max_upload"@[0] == 'm',
        "min_leecher"@.len() == 11,
        "max_connected_seeder"@.len() == 20,
        "min_connected_leecher"@.len() == 21,
        "max_progress"@.len() == 12 && "max_progress"@[0] == 'm',
        "upload_ratio"@.len() == 12 && "upload_ratio"@[0] == 'u',
{
    reveal_strlit("nothing");
    reveal_strlit("last_activity");
    reveal_strlit("seed_size");
    reveal_strlit("maximum_number");
    reveal_strlit("free_space");
    reveal_strlit("remote_free_space");
    reveal_strlit("remove");
    reveal_strlit("ratio");
    reveal_strlit("create_time");
    reveal_strlit("downloading_time");
    reveal_strlit("seeding_time");
    reveal_strlit("max_download");
    reveal_strlit("max_downloadspeed");
    reveal_strlit("min_uploadspeed");
    reveal_strlit("max_average_downloadspeed");
    reveal_strlit("min_average_uploadspeed");
    reveal_strlit("max_size");
    reveal_strlit("max_seeder");
    reveal_strlit("max_upload");
    reveal_strlit("min_leecher");
    reveal_strlit("max_connected_seeder");
    reveal_strlit("min_connected_leecher");
    reveal_strlit("max_progress");
    reveal_strlit("upload_ratio");
}

/// What is wrong with an entry that has to be a number.
pub open spec fn number_fault(entry: Option<ItemView>, name: Seq<char>) -> Option<FaultView> {
    match entry {
        None => Some(FaultView::Missing(name)),
        Some(ItemView::Float(_)) => None,
        Some(ItemView::Integer(_)) => None,
        Some(_) => Some(FaultView::NotNumber(name)),
    }
}

/// What is wrong with an entry that has to be a text.
pub open spec fn text_fault(entry: Option<ItemView>, name: Seq<char>) -> Option<FaultView> {
    match entry {
        None => Some(FaultView::Missing(name)),
        Some(ItemView::Text(_)) => None,
        Some(_) => Some(FaultView::NotText(name)),
    }
}

/// What is wrong with an entry that has to name an action.
pub open spec fn action_fault(entry: Option<ItemView>, name: Seq<char>) -> Option<FaultView> {
    match entry {
        Some(ItemView::Text(word)) => if action_of(word) is None {
            Some(FaultView::NoSuchAction(word))
        } else {
            None
        },
        _ => text_fault(entry, name),
    }
}

/// The first of two faults.
pub open spec fn first_of(first: Option<FaultView>, second: Option<FaultView>) -> Option<FaultView> {
    if first is Some {
        first
    } else {
        second
    }
}

/// What is wrong with the table of a condition on a whole list, in the order in which it is looked at:
/// the number, which must not be negative where it counts torrents, for the conditions on free space
/// the path, and the action.
pub proof fn law_tables_of_conditions_are_checked(key: Seq<char>, table: TableView)
    ensures
        ({
            let fault = condition_fault(key, ItemView::Table(table));
            let limit = entry_of(table, "limit"@);
            let min = entry_of(table, "min"@);
            let path = entry_of(table, "path"@);
            let action = entry_of(table, "action"@);
            &&& key == "seed_size"@ ==> fault == first_of(
                number_fault(limit, "seed_size.limit"@),
                action_fault(action, "seed_size.action"@),
            )
            &&& key == "maximum_number"@ && number_fault(limit, "maximum_number.limit"@) is Some
                ==> fault == number_fault(limit, "maximum_number.limit"@)
            &&& forall|number: Number|
                key == "maximum_number"@ && #[trigger] has_number(table, "limit"@, number) ==> fault
                    == (if number.is_none() || number.amount() < 0 {
                    Some(FaultView::NegativeLimit)
                } else {
                    action_fault(action, "maximum_number.action"@)
                })
            &&& key == "free_space"@ ==> fault == first_of(
                number_fault(min, "free_space.min"@),
                first_of(
                    text_fault(path, "free_space.path"@),
                    action_fault(action, "free_space.action"@),
                ),
            )
            &&& key == "remote_free_space"@ ==> fault == first_of(
                number_fault(min, "remote_free_space.min"@),
                first_of(
                    text_fault(path, "remote_free_space.path"@),
                    action_fault(action, "remote_free_space.action"@),
                ),
            )
        }),
{
    lemma_condition_keys_differ();
    law_integers_are_exact(0);
}

/// Whether an item is a list of texts: an array of them, or one text by itself.
pub open spec fn is_text_list(item: ItemView, list: Seq<Seq<char>>) -> bool {
    ||| item matches ItemView::Text(text) && list == seq![text]
    ||| item matches ItemView::Array(items) && list.len() == items.len() && forall|i: int|
        0 <= i < items.len() ==> #[trigger] items[i] == ItemView::Text(list[i])
}

/// Whether a filter takes all: what its switch says, else unless its list is given.
pub open spec fn is_switched(table: TableView, switch: Seq<char>, list: Seq<char>, all: bool) -> bool {
    match entry_of(table, switch) {
        Some(item) => item == ItemView::Boolean(all),
        None => all == (entry_of(table, list) is None),
    }
}

/// Whether a strategy lists so many texts under a key: those of its item, or none.
pub open spec fn is_listing(table: TableView, key: Seq<char>, list: Seq<Seq<char>>) -> bool {
    match entry_of(table, key) {
        Some(item) => is_text_list(item, list),
        None => list.len() == 0,
    }
}

/// What the filters of a strategy take: a switch takes all or not as it says; without it all is taken
/// unless there is a list. A list may be one text by itself. What is not listed is not excluded.
pub proof fn law_filters_are_read(table: TableView, strategy: StrategyConfig)
    requires
        strategy_fault(table) is None,
        is_strategy(table, strategy),
    ensures
        entry_of(table, "name"@) == Some(ItemView::Text(strategy.name@)),
        is_switched(table, "all_categories"@, "categories"@, strategy.filters.all_categories),
        is_switched(table, "all_trackers"@, "trackers"@, strategy.filters.all_trackers),
        is_switched(table, "all_status"@, "status"@, strategy.filters.all_status),
        is_listing(table, "categories"@, texts(strategy.filters.categories@)),
        is_listing(table, "excluded_categories"@, texts(strategy.filters.excluded_categories@)),
        is_listing(table, "trackers"@, texts(strategy.filters.trackers@)),
        is_listing(table, "excluded_trackers"@, texts(strategy.filters.excluded_trackers@)),
        exists|words: Seq<Seq<char>>| #[trigger]
            is_listing(table, "status"@, words) && is_selector(words, strategy.filters.status),
        exists|words: Seq<Seq<char>>| #[trigger]
            is_listing(table, "excluded_status"@, words) && is_selector(
                words,
                strategy.filters.excluded_status,
            ),
{
    lemma_keys_differ();
    assert(table.take(table.len() as int) =~= table);
    lemma_no_fault(table, table.len(), "all_categories"@);
    lemma_no_fault(table, table.len(), "all_trackers"@);
    lemma_no_fault(table, table.len(), "all_status"@);
    lemma_listed(table, "categories"@);
    lemma_listed(table, "excluded_categories"@);
    lemma_listed(table, "trackers"@);
    lemma_listed(table, "excluded_trackers"@);
    lemma_listed(table, "status"@);
    lemma_listed(table, "excluded_status"@);
    assert(is_listing(table, "status"@, listed(table, "status"@)));
    assert(is_listing(table, "excluded_status"@, listed(table, "excluded_status"@)));
}

proof fn lemma_listed(table: TableView, key: Seq<char>)
    requires
        strategy_fault(table) is None,
        is_list(key),
    ensures
        is_listing(table, key, listed(table, key)),
{
    lemma_keys_differ();
    assert(table.take(table.len() as int) =~= table);
    lemma_no_fault(table, table.len(), key);
}

/// Whether places are those of the entries of a table that state conditions, in their order.
pub open spec fn are_condition_places(table: TableView, places: Seq<int>) -> bool {
    &&& forall|i: int|
        0 <= i < places.len() ==> 0 <= #[trigger] places[i] < table.len() && is_condition_key(
            table[places[i]].0,
        )
    &&& forall|i: int, j: int|
        0 <= i < j < places.len() ==> #[trigger] places[i] < #[trigger] places[j]
    &&& forall|k: int|
        0 <= k < table.len() && is_condition_key((#[trigger] table[k]).0) ==> places.contains(k)
}

/// The conditions of a strategy are those that its entries state, all of them and in their order.
pub proof fn law_conditions_keep_their_order(table: TableView, strategy: StrategyConfig)
    requires
        is_strategy(table, strategy),
    ensures
        exists|places: Seq<int>| #[trigger]
            are_condition_places(table, places) && strategy.conditions@.len() == places.len()
                && forall|i: int|
                0 <= i < places.len() ==> states(
                    table[places[i]].0,
                    table[places[i]].1,
                    #[trigger] strategy.conditions@[i],
                ),
{
    let places = condition_places(table, table.len());
    lemma_condition_places(table, table.len());
    assert forall|k: int|
        0 <= k < table.len() && is_condition_key((#[trigger] table[k]).0) implies places.contains(
        k,
    ) by {
        lemma_conditions_are_no_filters(table[k].0);
    }
    assert(are_condition_places(table, places));
}

proof fn lemma_conditions_are_no_filters(key: Seq<char>)
    requires
        is_condition_key(key),
    ensures
        is_condition_entry(key),
{
    lemma_condition_keys_differ();
    reveal_strlit("name");
    reveal_strlit("all_categories");
    reveal_strlit("all_trackers");
    reveal_strlit("all_status");
    reveal_strlit("categories");
    reveal_strlit("excluded_categories");
    reveal_strlit("trackers");
    reveal_strlit("excluded_trackers");
    reveal_strlit("status");
    reveal_strlit("excluded_status");
    assert("name"@.len() == 4);
    assert("all_categories"@.len() == 14 && "all_categories"@[0] == 'a');
    assert("all_trackers"@.len() == 12 && "all_trackers"@[0] == 'a');
    assert("all_status"@.len() == 10 && "all_status"@[0] == 'a');
    assert("categories"@.len() == 10 && "categories"@[0] == 'c');
    assert("excluded_categories"@.len() == 19);
    assert("trackers"@.len() == 8 && "trackers"@[0] == 't');
    assert("excluded_trackers"@.len() == 17 && "excluded_trackers"@[0] == 'e');
    assert("status"@.len() == 6 && "status"@[0] == 's');
    assert("excluded_status"@.len() == 15 && "excluded_status"@[0] == 'e');
}

proof fn lemma_condition_places(table: TableView, count: nat)
    requires
        count <= table.len(),
    ensures
        ({
            let places = condition_places(table, count);
            &&& forall|i: int|
                0 <= i < places.len() ==> 0 <= #[trigger] places[i] < count && is_condition_entry(
                    table[places[i]].0,
                )
            &&& forall|i: int, j: int|
                0 <= i < j < places.len() ==> #[trigger] places[i] < #[trigger] places[j]
            &&& forall|k: int|
                0 <= k < count && is_condition_entry((#[trigger] table[k]).0) ==> places.contains(
                    k,
                )
        }),
    decreases count,
{
    if count > 0 {
        lemma_condition_places(table, (count - 1) as nat);
        let before = condition_places(table, (count - 1) as nat);
        let places = condition_places(table, count);
        assert forall|k: int|
            0 <= k < count && is_condition_entry((#[trigger] table[k]).0) implies places.contains(
            k,
        ) by {
            if k < count - 1 {
                assert(before.contains(k));
                let i = choose|i: int| 0 <= i < before.len() && before[i] == k;
                assert(places[i] == k);
            } else {
                assert(places[before.len() as int] == k);
            }
        }
    }
}

/// What is wrong with a strategy is what is wrong with the first of its entries that is wrong; else it
/// may lack a name.
pub proof fn law_first_wrong_entry_is_named(table: TableView, at: int)
    ensures
        0 <= at < table.len() && entry_fault(table[at].0, table[at].1) is Some && (forall|k: int|
            0 <= k < at ==> entry_fault((#[trigger] table[k]).0, table[k].1) is None)
            ==> strategy_fault(table) == entry_fault(table[at].0, table[at].1),
        (forall|k: int|
            0 <= k < table.len() ==> entry_fault((#[trigger] table[k]).0, table[k].1) is None)
            ==> strategy_fault(table) == (if entry_of(table, "name"@) is None {
            Some(FaultView::NoStrategyName)
        } else {
            None
        }),
{
    if forall|k: int|
        0 <= k < table.len() ==> entry_fault((#[trigger] table[k]).0, table[k].1) is None {
        lemma_no_first_fault(table, table.len());
    }
    if 0 <= at < table.len() && entry_fault(table[at].0, table[at].1) is Some && (forall|k: int|
        0 <= k < at ==> entry_fault((#[trigger] table[k]).0, table[k].1) is None) {
        lemma_no_first_fault(table, at as nat);
        lemma_fault_stays(table, (at + 1) as nat, table.len());
    }
}

proof fn lemma_no_first_fault(table: TableView, count: nat)
    requires
        count <= table.len(),
        forall|k: int|
            0 <= k < count ==> entry_fault((#[trigger] table[k]).0, table[k].1) is None,
    ensures
        first_fault(table, count) is None,
    decreases count,
{
    if count > 0 {
        lemma_no_first_fault(table, (count - 1) as nat);
        assert(entry_fault(table[count - 1].0, table[count - 1].1) is None);
    }
}

/// What is wrong with an entry of a strategy: its name has to be a text, a switch a truth value, a list
/// texts, and a condition as it is stated. Entries with other keys say nothing.
pub proof fn law_entries_are_checked(key: Seq<char>, item: ItemView)
    ensures
        key == "name"@ ==> entry_fault(key, item) == (if item is Text {
            None
        } else {
            Some(FaultView::NotText("tasks.strategies.name"@))
        }),
        key == "all_categories"@ || key == "all_trackers"@ || key == "all_status"@ ==> entry_fault(
            key,
            item,
        ) == (if item is Boolean {
            None
        } else {
            Some(FaultView::NotBoolean(key))
        }),
        key == "categories"@ || key == "excluded_categories"@ || key == "trackers"@ || key
            == "excluded_trackers"@ || key == "status"@ || key == "excluded_status"@
            ==> entry_fault(key, item) == (match item {
            ItemView::Text(_) => None,
            ItemView::Array(items) => if exists|i: int|
                0 <= i < items.len() && !((#[trigger] items[i]) is Text) {
                Some(FaultView::NotOnlyTexts(key))
            } else {
                None
            },
            _ => Some(FaultView::NotTexts(key)),
        }),
        is_condition_key(key) ==> entry_fault(key, item) == condition_fault(key, item),
        key != "name"@ && key != "all_categories"@ && key != "all_trackers"@ && key
            != "all_status"@ && key != "categories"@ && key != "excluded_categories"@ && key
            != "trackers"@ && key != "excluded_trackers"@ && key != "status"@ && key
            != "excluded_status"@ && !is_condition_key(key) ==> entry_fault(key, item) is None,
{
    lemma_keys_differ();
    if is_condition_key(key) {
        lemma_conditions_are_no_filters(key);
    }
}

/// What a task says: its data is deleted only if it says so, and its strategies are those of its
/// tables, in their order.
pub proof fn law_tasks_are_read(table: TableView, task: AutoremoveTask)
    requires
        is_task(table, task),
    ensures
        entry_of(table, "name"@) == Some(ItemView::Text(task.name@)),
        task.delete_data <==> entry_of(table, "delete_data"@) == Some(ItemView::Boolean(true)),
        entry_of(table, "strategies"@) matches Some(ItemView::Tables(tables))
            && task.strategies@.len() == tables.len() && forall|i: int|
            0 <= i < tables.len() ==> is_strategy(tables[i], #[trigger] task.strategies@[i]),
{
}

/// What is wrong with a task, in the order in which it is looked at: its name, whether it deletes data,
/// and its strategies, of which the first wrong one counts, or the first that repeats a name.
pub proof fn law_tasks_are_checked(table: TableView, at: int)
    ensures
        ({
            let fault = task_fault(table);
            let named = entry_of(table, "name"@) matches Some(ItemView::Text(_));
            let name = entry_of(table, "name"@)->0->Text_0;
            let data = entry_of(table, "delete_data"@);
            let decided = data is None || data->0 is Boolean;
            let strategies = entry_of(table, "strategies"@);
            let tables = strategies->0->Tables_0;
            let listed = named && decided && strategies is Some && strategies->0 is Tables
                && tables.len() > 0;
            &&& entry_of(table, "name"@) is None ==> fault == Some(
                FaultView::Missing("tasks.name"@),
            )
            &&& entry_of(table, "name"@) is Some && !named ==> fault == Some(
                FaultView::NotText("tasks.name"@),
            )
            &&& named && !decided ==> fault == Some(FaultView::NotBoolean("delete_data"@))
            &&& named && decided && strategies is None ==> fault == Some(
                FaultView::NoStrategies(name),
            )
            &&& named && decided && strategies is Some && !(strategies->0 is Tables) ==> fault
                == Some(FaultView::StrategiesNotTables(name))
            &&& named && decided && strategies is Some && strategies->0 is Tables && tables.len()
                == 0 ==> fault == Some(FaultView::NoStrategies(name))
            &&& listed && 0 <= at < tables.len() && are_sound(tables, at) && strategy_fault(
                tables[at],
            ) is Some ==> fault == strategy_fault(tables[at])
            &&& listed && 0 <= at < tables.len() && are_sound(tables, at) && strategy_fault(
                tables[at],
            ) is None && repeats_name(tables, at) ==> fault == Some(
                FaultView::DuplicateStrategy(name, name_of(tables[at])),
            )
            &&& listed && are_sound(tables, tables.len() as int) ==> fault is None
        }),
{
    let name = entry_of(table, "name"@)->0->Text_0;
    if let Some(ItemView::Tables(tables)) = entry_of(table, "strategies"@) {
        if are_sound(tables, tables.len() as int) {
            lemma_sound_strategies(name, tables, tables.len());
        }
        if 0 <= at < tables.len() && are_sound(tables, at) {
            lemma_sound_strategies(name, tables, at as nat);
            if strategy_fault(tables[at]) is Some || repeats_name(tables, at) {
                lemma_strategies_fault_stays(name, tables, (at + 1) as nat, tables.len());
            }
        }
    }
}

/// Whether a table has the name of one before it.
pub open spec fn repeats_name(tables: Seq<TableView>, at: int) -> bool {
    exists|j: int| 0 <= j < at && name_of(#[trigger] tables[j]) == name_of(tables[at])
}

/// Whether nothing is wrong with the first strategies of a task, and none of them repeats a name.
pub open spec fn are_sound(tables: Seq<TableView>, count: int) -> bool {
    forall|k: int|
        0 <= k < count ==> strategy_fault(#[trigger] tables[k]) is None && !repeats_name(tables, k)
}

proof fn lemma_sound_strategies(task: Seq<char>, tables: Seq<TableView>, count: nat)
    requires
        count <= tables.len(),
        are_sound(tables, count as int),
    ensures
        strategies_fault(task, tables, count) is None,
    decreases count,
{
    if count > 0 {
        lemma_sound_strategies(task, tables, (count - 1) as nat);
        assert(strategy_fault(tables[count - 1]) is None && !repeats_name(tables, count - 1));
    }
}

/// Whether nothing is wrong with the first tasks, and none of them repeats a name.
pub open spec fn are_sound_tasks(tables: Seq<TableView>, count: int) -> bool {
    forall|k: int|
        0 <= k < count ==> task_fault(#[trigger] tables[k]) is None && !repeats_name(tables, k)
}

proof fn lemma_sound_tasks(tables: Seq<TableView>, count: nat)
    requires
        count <= tables.len(),
        are_sound_tasks(tables, count as int),
    ensures
        tasks_fault(tables, count) is None,
    decreases count,
{
    if count > 0 {
        lemma_sound_tasks(tables, (count - 1) as nat);
        assert(task_fault(tables[count - 1]) is None && !repeats_name(tables, count - 1));
    }
}

/// What is wrong with a configuration, in the order in which it is looked at: how qBittorrent is
/// reached, then the tasks, of which the first wrong one counts, or the first that repeats a name. There
/// has to be one at least.
pub proof fn law_configurations_are_checked(root: TableView, at: int)
    ensures
        ({
            let fault = config_fault(root);
            let client = entry_of(root, "client"@);
            let reached = client_of(root) is Ok;
            let tasks = entry_of(root, "tasks"@);
            let tables = tasks->0->Tables_0;
            let listed = reached && tasks is Some && tasks->0 is Tables;
            &&& client is None || !(client->0 is Table) ==> fault == Some(FaultView::NoClient)
            &&& client is Some && client->0 is Table && !reached ==> fault == fault_of(
                client_of(root),
            )
            &&& reached && tasks is None ==> fault == Some(FaultView::NoTasks)
            &&& reached && tasks is Some && !(tasks->0 is Tables) ==> fault == Some(
                FaultView::TasksNotTables,
            )
            &&& listed && tables.len() == 0 ==> fault == Some(FaultView::EmptyTasks)
            &&& listed && 0 <= at < tables.len() && are_sound_tasks(tables, at) && task_fault(
                tables[at],
            ) is Some ==> fault == task_fault(tables[at])
            &&& listed && 0 <= at < tables.len() && are_sound_tasks(tables, at) && task_fault(
                tables[at],
            ) is None && repeats_name(tables, at) ==> fault == Some(
                FaultView::DuplicateTask(name_of(tables[at])),
            )
            &&& listed && tables.len() > 0 && are_sound_tasks(tables, tables.len() as int)
                ==> fault is None
        }),
{
    if let Some(ItemView::Tables(tables)) = entry_of(root, "tasks"@) {
        if are_sound_tasks(tables, tables.len() as int) {
            lemma_sound_tasks(tables, tables.len());
        }
        if 0 <= at < tables.len() && are_sound_tasks(tables, at) {
            lemma_sound_tasks(tables, at as nat);
            if task_fault(tables[at]) is Some || repeats_name(tables, at) {
                lemma_tasks_fault_stays(tables, (at + 1) as nat, tables.len());
            }
        }
    }
}

/// What a configuration says: host, user name and password are the texts under these keys of the table
/// of the client, and the tasks are those of their tables, in their order.
pub proof fn law_configurations_are_read(root: TableView, config: AutoremoveConfig)
    requires
        is_config(root, config),
    ensures
        entry_of(root, "client"@) matches Some(ItemView::Table(client)) && entry_of(client, "host"@)
            == Some(ItemView::Text(config.client.host@)) && entry_of(client, "username"@) == Some(
            ItemView::Text(config.client.username@),
        ) && entry_of(client, "password"@) == Some(ItemView::Text(config.client.password@)),
        entry_of(root, "tasks"@) matches Some(ItemView::Tables(tables)) && config.tasks@.len()
            == tables.len() && forall|i: int|
            0 <= i < tables.len() ==> is_task(tables[i], #[trigger] config.tasks@[i]),
{
}

/// What is wrong with the table of the client: the first of host, user name and password that is
/// missing or is no text.
pub proof fn law_clients_are_checked(root: TableView, client: TableView)
    requires
        entry_of(root, "client"@) == Some(ItemView::Table(client)),
    ensures
        ({
            let host = entry_of(client, "host"@);
            let username = entry_of(client, "username"@);
            let password = entry_of(client, "password"@);
            let has_host = host is Some && host->0 is Text;
            let has_username = username is Some && username->0 is Text;
            let has_password = password is Some && password->0 is Text;
            let fault = fault_of(client_of(root));
            &&& fault is None <==> has_host && has_username && has_password
            &&& host is None ==> fault == Some(FaultView::Missing("client.host"@))
            &&& host is Some && !has_host ==> fault == Some(FaultView::NotText("client.host"@))
            &&& has_host && username is None ==> fault == Some(
                FaultView::Missing("client.username"@),
            )
            &&& has_host && username is Some && !has_username ==> fault == Some(
                FaultView::NotText("client.username"@),
            )
            &&& has_host && has_username && password is None ==> fault == Some(
                FaultView::Missing("client.password"@),
            )
            &&& has_host && has_username && password is Some && !has_password ==> fault == Some(
                FaultView::NotText("client.password"@),
            )
        }),
{
}

/// A text refers to a variable if and only if it is the name of one between `$(` and `)`.
pub proof fn law_references_have_names(value: Seq<char>, name: Seq<char>)
    ensures
        is_reference(seq!['$', '('] + name + seq![')']),
        (seq!['$', '('] + name + seq![')']).subrange(2, name.len() as int + 2) == name,
        is_reference(value) ==> value == seq!['$', '('] + value.subrange(2, value.len() - 1)
            + seq![')'],
{
    let text = seq!['$', '('] + name + seq![')'];
    assert(text[0] == '$' && text[1] == '(' && text.last() == ')');
    assert(text.subrange(2, name.len() as int + 2) =~= name);
    if is_reference(value) {
        assert(value =~= seq!['$', '('] + value.subrange(2, value.len() - 1) + seq![')']);
    }
}

/// An outcome agrees with one statement alone: the value it holds, or what its error says.
pub proof fn law_outcomes_agree_with_one_statement(
    text: Result<String, ConfigError>,
    list: Result<Vec<String>, ConfigError>,
    stated: Result<Seq<char>, FaultView>,
    stated_list: Result<Seq<Seq<char>>, FaultView>,
)
    ensures
        text_agrees(text, stated) <==> (text is Ok && stated is Ok && stated->Ok_0
            == text->Ok_0@) || (text is Err && stated is Err && stated->Err_0 == text->Err_0@),
        texts_agree(list, stated_list) <==> (list is Ok && stated_list is Ok && stated_list->Ok_0
            == texts(list->Ok_0@)) || (list is Err && stated_list is Err && stated_list->Err_0
            == list->Err_0@),
{
}

} // verus!
