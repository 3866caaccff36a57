//! Removal conditions: which torrents meet them, and how a list of torrents is divided by one.

use crate::expression::{
    expression_view, Comparer, Expression, ExpressionView, Literal, LiteralView, Parameter,
};
use crate::number::{of_integer, Number};
use crate::order::{
    integers, is_order, lemma_multiset_concat, lemma_order_exists, lemma_order_is_permutation,
    lemma_taken_keeps_all, order, order_places, places_of, precedes, taken,
};
use crate::text::{lower, same_text, to_lower};
use crate::torrent::{ClientStatus, Torrent, TorrentStatus};
use vstd::prelude::*;

verus! {

/// How many bytes a gibibyte has.
pub const BYTES_PER_GIB: u64 = 1_073_741_824;

/// How many bytes a kibibyte has.
pub const BYTES_PER_KIB: u64 = 1024;

/// Which torrents are removed first.
#[derive(Clone, Copy, PartialEq, Eq, Structural, Debug)]
pub enum SortAction {
    RemoveOldSeeds,
    RemoveNewSeeds,
    RemoveBigSeeds,
    RemoveSmallSeeds,
    RemoveActiveSeeds,
    RemoveInactiveSeeds,
    RemoveFastUploadSeeds,
    RemoveSlowUploadSeeds,
}

/// What the last activity is held against.
#[derive(Clone, Copy, Debug)]
pub enum LastActivityValue {
    Seconds(Number),
    Never,
}

/// A removal condition of a strategy.
pub enum ConditionSpec {
    Nothing,
    Ratio(Number),
    CreateTime(Number),
    DownloadingTime(Number),
    SeedingTime(Number),
    MaxDownload(Number),
    MaxDownloadSpeed(Number),
    MinUploadSpeed(Number),
    MaxAverageDownloadSpeed(Number),
    MinAverageUploadSpeed(Number),
    MaxSize(Number),
    MaxSeeder(Number),
    MaxUpload(Number),
    MinLeecher(Number),
    MaxConnectedSeeder(Number),
    MinConnectedLeecher(Number),
    LastActivity(LastActivityValue),
    MaxProgress(Number),
    UploadRatio(Number),
    SeedSize { limit_gib: Number, action: SortAction },
    MaximumNumber { limit: usize, action: SortAction },
    FreeSpace { min_gib: Number, path: String, action: SortAction },
    RemoteFreeSpace { min_gib: Number, path: String, action: SortAction },
    Remove(Expression),
}

/// Why a condition cannot be applied.
#[derive(Clone, Copy, PartialEq, Eq, Structural, Debug)]
pub enum ConditionError {
    /// The usage of the filesystem that the condition names could not be read.
    FilesystemUnknown,
    /// qBittorrent did not report how much space is free.
    RemoteUnknown,
}

/// Whether one number stands to another as asked.
pub open spec fn compares(left: Number, right: Number, comparer: Comparer) -> bool {
    match comparer {
        Comparer::Lt => left.is_less(right),
        Comparer::Gt => right.is_less(left),
        Comparer::Eq => left.is_same(right),
    }
}

/// Whether one number stands to another as asked.
pub fn compare(left: Number, right: Number, comparer: Comparer) -> (holds: bool)
    ensures
        holds == compares(left, right, comparer),
{
    match comparer {
        Comparer::Lt => left.less(right),
        Comparer::Gt => right.less(left),
        Comparer::Eq => left.same(right),
    }
}

/// The bytes of a number of gibibytes.
pub fn gib_to_bytes(gib: Number) -> (bytes: Number)
    ensures
        bytes == gib.product(of_integer(BYTES_PER_GIB as int)),
{
    gib.times(Number::from_natural(BYTES_PER_GIB))
}

/// The bytes of a number of kibibytes.
pub fn kib_to_bytes(kib: Number) -> (bytes: Number)
    ensures
        bytes == kib.product(of_integer(BYTES_PER_KIB as int)),
{
    kib.times(Number::from_natural(BYTES_PER_KIB))
}

/// Whether a torrent is being loaded or seeded.
pub open spec fn is_active(torrent: Torrent) -> bool {
    torrent.status == TorrentStatus::Downloading || torrent.status == TorrentStatus::Uploading
}

/// What a parameter amounts to for a torrent; `None` where it does not apply.
pub open spec fn measured(parameter: Parameter, torrent: Torrent, now: i64) -> Option<Number> {
    match parameter {
        Parameter::AverageDownloadSpeed => Some(
            of_integer(torrent.average_download_speed as int),
        ),
        Parameter::AverageUploadSpeed => Some(of_integer(torrent.average_upload_speed as int)),
        Parameter::ConnectedLeecher => if is_active(torrent) {
            Some(of_integer(torrent.connected_leecher as int))
        } else {
            None
        },
        Parameter::ConnectedSeeder => if is_active(torrent) {
            Some(of_integer(torrent.connected_seeder as int))
        } else {
            None
        },
        Parameter::CreateTime => Some(of_integer(now - torrent.create_time)),
        Parameter::Download => Some(of_integer(torrent.downloaded as int)),
        Parameter::DownloadSpeed => if torrent.status == TorrentStatus::Downloading {
            Some(of_integer(torrent.download_speed as int))
        } else {
            None
        },
        Parameter::DownloadingTime => Some(of_integer(torrent.downloading_time as int)),
        Parameter::LastActivity => match torrent.last_activity {
            Some(seconds) => Some(of_integer(seconds as int)),
            None => None,
        },
        Parameter::Leecher => Some(of_integer(torrent.leecher as int)),
        Parameter::Progress => Some(torrent.progress),
        Parameter::Ratio => Some(torrent.ratio),
        Parameter::Seeder => Some(of_integer(torrent.seeder as int)),
        Parameter::SeedingTime => Some(of_integer(torrent.seeding_time as int)),
        Parameter::Size => Some(of_integer(torrent.size as int)),
        Parameter::Upload => Some(of_integer(torrent.uploaded as int)),
        Parameter::UploadRatio => if torrent.size > 0 {
            Some(
                of_integer(torrent.uploaded as int).quotient(of_integer(torrent.size as int)),
            )
        } else {
            None
        },
        Parameter::UploadSpeed => if is_active(torrent) {
            Some(of_integer(torrent.upload_speed as int))
        } else {
            None
        },
    }
}

/// A limit in the unit that its parameter is measured in: speeds are given in kibibytes, amounts of
/// data in gibibytes, and progress in per cent.
pub open spec fn scaled(parameter: Parameter, limit: Number) -> Number {
    match parameter {
        Parameter::AverageDownloadSpeed | Parameter::AverageUploadSpeed
        | Parameter::DownloadSpeed | Parameter::UploadSpeed => limit.product(
            of_integer(BYTES_PER_KIB as int),
        ),
        Parameter::Download | Parameter::Size | Parameter::Upload => limit.product(
            of_integer(BYTES_PER_GIB as int),
        ),
        Parameter::Progress => limit.quotient(of_integer(100)),
        _ => limit,
    }
}

/// Whether a torrent stands to a limit as asked.
pub open spec fn passes(
    parameter: Parameter,
    comparer: Comparer,
    limit: Number,
    torrent: Torrent,
    now: i64,
) -> bool {
    match measured(parameter, torrent, now) {
        Some(amount) => compares(amount, scaled(parameter, limit), comparer),
        None => false,
    }
}

/// Whether a word says that a torrent was never active.
pub open spec fn means_never(word: Seq<char>) -> bool {
    lower(word) == "never"@ || lower(word) == "none"@
}

/// Whether a torrent meets a relation.
pub open spec fn relates(
    parameter: Parameter,
    comparer: Comparer,
    value: LiteralView,
    torrent: Torrent,
    now: i64,
) -> bool {
    match value {
        LiteralView::Number(limit) => passes(parameter, comparer, limit, torrent, now),
        LiteralView::Text(word) => parameter == Parameter::LastActivity && means_never(word)
            && torrent.last_activity is None,
    }
}

/// Whether a torrent meets an expression.
pub open spec fn holds(expression: ExpressionView, torrent: Torrent, now: i64) -> bool
    decreases expression,
{
    match expression {
        ExpressionView::Relation { parameter, comparer, value } => relates(
            parameter,
            comparer,
            value,
            torrent,
            now,
        ),
        ExpressionView::And(left, right) => holds(*left, torrent, now) && holds(
            *right,
            torrent,
            now,
        ),
        ExpressionView::Or(left, right) => holds(*left, torrent, now) || holds(
            *right,
            torrent,
            now,
        ),
    }
}

fn active(torrent: &Torrent) -> (active: bool)
    ensures
        active == is_active(*torrent),
{
    torrent.status == TorrentStatus::Downloading || torrent.status == TorrentStatus::Uploading
}

fn measure(parameter: Parameter, torrent: &Torrent, now: i64) -> (amount: Option<Number>)
    ensures
        amount == measured(parameter, *torrent, now),
{
    match parameter {
        Parameter::AverageDownloadSpeed => Some(
            Number::from_integer(torrent.average_download_speed),
        ),
        Parameter::AverageUploadSpeed => Some(Number::from_integer(torrent.average_upload_speed)),
        Parameter::ConnectedLeecher => if active(torrent) {
            Some(Number::from_integer(torrent.connected_leecher))
        } else {
            None
        },
        Parameter::ConnectedSeeder => if active(torrent) {
            Some(Number::from_integer(torrent.connected_seeder))
        } else {
            None
        },
        Parameter::CreateTime => Some(Number::from_difference(now, torrent.create_time)),
        Parameter::Download => Some(Number::from_integer(torrent.downloaded)),
        Parameter::DownloadSpeed => if torrent.status == TorrentStatus::Downloading {
            Some(Number::from_integer(torrent.download_speed))
        } else {
            None
        },
        Parameter::DownloadingTime => Some(Number::from_integer(torrent.downloading_time)),
        Parameter::LastActivity => match torrent.last_activity {
            Some(seconds) => Some(Number::from_natural(seconds)),
            None => None,
        },
        Parameter::Leecher => Some(Number::from_integer(torrent.leecher)),
        Parameter::Progress => Some(torrent.progress),
        Parameter::Ratio => Some(torrent.ratio),
        Parameter::Seeder => Some(Number::from_integer(torrent.seeder)),
        Parameter::SeedingTime => Some(Number::from_integer(torrent.seeding_time)),
        Parameter::Size => Some(Number::from_natural(torrent.size)),
        Parameter::Upload => Some(Number::from_integer(torrent.uploaded)),
        Parameter::UploadRatio => if torrent.size > 0 {
            Some(
                Number::from_integer(torrent.uploaded).over(Number::from_natural(torrent.size)),
            )
        } else {
            None
        },
        Parameter::UploadSpeed => if active(torrent) {
            Some(Number::from_integer(torrent.upload_speed))
        } else {
            None
        },
    }
}

fn scale(parameter: Parameter, limit: Number) -> (scale: Number)
    ensures
        scale == scaled(parameter, limit),
{
    match parameter {
        Parameter::AverageDownloadSpeed | Parameter::AverageUploadSpeed
        | Parameter::DownloadSpeed | Parameter::UploadSpeed => kib_to_bytes(limit),
        Parameter::Download | Parameter::Size | Parameter::Upload => gib_to_bytes(limit),
        Parameter::Progress => limit.over(Number::from_natural(100)),
        _ => limit,
    }
}

fn pass(
    parameter: Parameter,
    comparer: Comparer,
    limit: Number,
    torrent: &Torrent,
    now: i64,
) -> (pass: bool)
    ensures
        pass == passes(parameter, comparer, limit, *torrent, now),
{
    match measure(parameter, torrent, now) {
        Some(amount) => compare(amount, scale(parameter, limit), comparer),
        None => false,
    }
}

/// Whether a torrent meets a relation.
pub fn matches_relation(
    parameter: Parameter,
    comparer: Comparer,
    value: &Literal,
    torrent: &Torrent,
    now: i64,
) -> (met: bool)
    ensures
        met == relates(parameter, comparer, value@, *torrent, now),
{
    match value {
        Literal::Number(limit) => pass(parameter, comparer, *limit, torrent, now),
        Literal::Text(word) => {
            let word = to_lower(word.as_str());
            parameter == Parameter::LastActivity && (same_text(word.as_str(), "never")
                || same_text(word.as_str(), "none")) && torrent.last_activity.is_none()
        },
    }
}

/// Whether a torrent meets an expression.
pub fn matches_expression(expression: &Expression, torrent: &Torrent, now: i64) -> (met: bool)
    ensures
        met == holds(expression_view(*expression), *torrent, now),
    decreases *expression,
{
    match expression {
        Expression::Relation { parameter, comparer, value } => matches_relation(
            *parameter,
            *comparer,
            value,
            torrent,
            now,
        ),
        Expression::And(left, right) => matches_expression(left, torrent, now)
            && matches_expression(right, torrent, now),
        Expression::Or(left, right) => matches_expression(left, torrent, now)
            || matches_expression(right, torrent, now),
    }
}

/// The relation to a number that a condition asks for.
pub open spec fn limit_of(condition: ConditionSpec) -> Option<(Parameter, Comparer, Number)> {
    match condition {
        ConditionSpec::Ratio(limit) => Some((Parameter::Ratio, Comparer::Gt, limit)),
        ConditionSpec::CreateTime(limit) => Some((Parameter::CreateTime, Comparer::Gt, limit)),
        ConditionSpec::DownloadingTime(limit) => Some(
            (Parameter::DownloadingTime, Comparer::Gt, limit),
        ),
        ConditionSpec::SeedingTime(limit) => Some((Parameter::SeedingTime, Comparer::Gt, limit)),
        ConditionSpec::MaxDownload(limit) => Some((Parameter::Download, Comparer::Gt, limit)),
        ConditionSpec::MaxDownloadSpeed(limit) => Some(
            (Parameter::DownloadSpeed, Comparer::Gt, limit),
        ),
        ConditionSpec::MinUploadSpeed(limit) => Some(
            (Parameter::UploadSpeed, Comparer::Lt, limit),
        ),
        ConditionSpec::MaxAverageDownloadSpeed(limit) => Some(
            (Parameter::AverageDownloadSpeed, Comparer::Gt, limit),
        ),
        ConditionSpec::MinAverageUploadSpeed(limit) => Some(
            (Parameter::AverageUploadSpeed, Comparer::Lt, limit),
        ),
        ConditionSpec::MaxSize(limit) => Some((Parameter::Size, Comparer::Gt, limit)),
        ConditionSpec::MaxSeeder(limit) => Some((Parameter::Seeder, Comparer::Gt, limit)),
        ConditionSpec::MaxUpload(limit) => Some((Parameter::Upload, Comparer::Gt, limit)),
        ConditionSpec::MinLeecher(limit) => Some((Parameter::Leecher, Comparer::Lt, limit)),
        ConditionSpec::MaxConnectedSeeder(limit) => Some(
            (Parameter::ConnectedSeeder, Comparer::Gt, limit),
        ),
        ConditionSpec::MinConnectedLeecher(limit) => Some(
            (Parameter::ConnectedLeecher, Comparer::Lt, limit),
        ),
        ConditionSpec::LastActivity(LastActivityValue::Seconds(limit)) => Some(
            (Parameter::LastActivity, Comparer::Gt, limit),
        ),
        ConditionSpec::MaxProgress(limit) => Some((Parameter::Progress, Comparer::Gt, limit)),
        ConditionSpec::UploadRatio(limit) => Some((Parameter::UploadRatio, Comparer::Gt, limit)),
        _ => None,
    }
}

/// Whether a torrent, taken by itself, meets a condition that looks at each torrent by itself.
pub open spec fn meets(condition: ConditionSpec, torrent: Torrent, now: i64) -> bool {
    match condition {
        ConditionSpec::LastActivity(LastActivityValue::Never) => torrent.last_activity is None,
        ConditionSpec::Remove(expression) => holds(expression_view(expression), torrent, now),
        _ => match limit_of(condition) {
            Some((parameter, comparer, limit)) => passes(parameter, comparer, limit, torrent, now),
            None => false,
        },
    }
}

/// Whether the last activity of a torrent meets a condition on it.
pub fn matches_last_activity(torrent: &Torrent, last_activity: &LastActivityValue) -> (met: bool)
    ensures
        met == (match last_activity {
            LastActivityValue::Seconds(limit) => torrent.last_activity is Some && limit.is_less(
                of_integer(torrent.last_activity->0 as int),
            ),
            LastActivityValue::Never => torrent.last_activity is None,
        }),
{
    match last_activity {
        LastActivityValue::Seconds(limit) => match torrent.last_activity {
            Some(seconds) => compare(Number::from_natural(seconds), *limit, Comparer::Gt),
            None => false,
        },
        LastActivityValue::Never => torrent.last_activity.is_none(),
    }
}

fn meet(condition: &ConditionSpec, torrent: &Torrent, now: i64) -> (met: bool)
    ensures
        met == meets(*condition, *torrent, now),
{
    match condition {
        ConditionSpec::Ratio(limit) => pass(Parameter::Ratio, Comparer::Gt, *limit, torrent, now),
        ConditionSpec::CreateTime(limit) => pass(
            Parameter::CreateTime,
            Comparer::Gt,
            *limit,
            torrent,
            now,
        ),
        ConditionSpec::DownloadingTime(limit) => pass(
            Parameter::DownloadingTime,
            Comparer::Gt,
            *limit,
            torrent,
            now,
        ),
        ConditionSpec::SeedingTime(limit) => pass(
            Parameter::SeedingTime,
            Comparer::Gt,
            *limit,
            torrent,
            now,
        ),
        ConditionSpec::MaxDownload(limit) => pass(
            Parameter::Download,
            Comparer::Gt,
            *limit,
            torrent,
            now,
        ),
        ConditionSpec::MaxDownloadSpeed(limit) => pass(
            Parameter::DownloadSpeed,
            Comparer::Gt,
            *limit,
            torrent,
            now,
        ),
        ConditionSpec::MinUploadSpeed(limit) => pass(
            Parameter::UploadSpeed,
            Comparer::Lt,
            *limit,
            torrent,
            now,
        ),
        ConditionSpec::MaxAverageDownloadSpeed(limit) => pass(
            Parameter::AverageDownloadSpeed,
            Comparer::Gt,
            *limit,
            torrent,
            now,
        ),
        ConditionSpec::MinAverageUploadSpeed(limit) => pass(
            Parameter::AverageUploadSpeed,
            Comparer::Lt,
            *limit,
            torrent,
            now,
        ),
        ConditionSpec::MaxSize(limit) => pass(Parameter::Size, Comparer::Gt, *limit, torrent, now),
        ConditionSpec::MaxSeeder(limit) => pass(
            Parameter::Seeder,
            Comparer::Gt,
            *limit,
            torrent,
            now,
        ),
        ConditionSpec::MaxUpload(limit) => pass(
            Parameter::Upload,
            Comparer::Gt,
            *limit,
            torrent,
            now,
        ),
        ConditionSpec::MinLeecher(limit) => pass(
            Parameter::Leecher,
            Comparer::Lt,
            *limit,
            torrent,
            now,
        ),
        ConditionSpec::MaxConnectedSeeder(limit) => pass(
            Parameter::ConnectedSeeder,
            Comparer::Gt,
            *limit,
            torrent,
            now,
        ),
        ConditionSpec::MinConnectedLeecher(limit) => pass(
            Parameter::ConnectedLeecher,
            Comparer::Lt,
            *limit,
            torrent,
            now,
        ),
        ConditionSpec::LastActivity(last_activity) => matches_last_activity(
            torrent,
            last_activity,
        ),
        ConditionSpec::MaxProgress(limit) => pass(
            Parameter::Progress,
            Comparer::Gt,
            *limit,
            torrent,
            now,
        ),
        ConditionSpec::UploadRatio(limit) => pass(
            Parameter::UploadRatio,
            Comparer::Gt,
            *limit,
            torrent,
            now,
        ),
        ConditionSpec::Remove(expression) => matches_expression(expression, torrent, now),
        _ => false,
    }
}

/// A list of torrents divided into those that remain and those that are removed.
pub struct Division<'a> {
    pub remain: Vec<&'a Torrent>,
    pub remove: Vec<&'a Torrent>,
}

/// The torrents of a list that meet a condition, or those that do not.
pub open spec fn selected(
    torrents: Seq<&Torrent>,
    condition: ConditionSpec,
    now: i64,
    met: bool,
) -> Seq<&Torrent>
    decreases torrents.len(),
{
    if torrents.len() == 0 {
        Seq::empty()
    } else {
        let before = selected(torrents.drop_last(), condition, now, met);
        if meets(condition, *torrents.last(), now) == met {
            before.push(torrents.last())
        } else {
            before
        }
    }
}

/// Removes the torrents that meet a condition which looks at each torrent by itself.
pub fn partition_by<'a>(torrents: &Vec<&'a Torrent>, condition: &ConditionSpec, now: i64) -> (division:
    Division<'a>)
    ensures
        division.remain@ == selected(torrents@, *condition, now, false),
        division.remove@ == selected(torrents@, *condition, now, true),
{
    let mut remain: Vec<&'a Torrent> = Vec::new();
    let mut remove: Vec<&'a Torrent> = Vec::new();
    let mut i: usize = 0;
    assert(torrents@.take(0) =~= Seq::<&Torrent>::empty());
    while i < torrents.len()
        invariant
            i <= torrents@.len(),
            remain@ == selected(torrents@.take(i as int), *condition, now, false),
            remove@ == selected(torrents@.take(i as int), *condition, now, true),
        decreases torrents.len() - i,
    {
        assert(torrents@.take(i + 1).drop_last() =~= torrents@.take(i as int));
        if meet(condition, torrents[i], now) {
            remove.push(torrents[i]);
        } else {
            remain.push(torrents[i]);
        }
        i = i + 1;
    }
    assert(torrents@.take(i as int) =~= torrents@);
    Division { remain, remove }
}

/// What torrents are sorted by: those with the least key are removed first.
pub open spec fn sort_key(action: SortAction, torrent: Torrent) -> int {
    match action {
        SortAction::RemoveOldSeeds => torrent.create_time as int,
        SortAction::RemoveNewSeeds => -torrent.create_time,
        SortAction::RemoveBigSeeds => -torrent.size,
        SortAction::RemoveSmallSeeds => torrent.size as int,
        SortAction::RemoveActiveSeeds => match torrent.last_activity {
            Some(seconds) => seconds as int,
            None => u64::MAX as int,
        },
        SortAction::RemoveInactiveSeeds => match torrent.last_activity {
            Some(seconds) => -seconds,
            None => 0,
        },
        SortAction::RemoveFastUploadSeeds => -torrent.upload_speed,
        SortAction::RemoveSlowUploadSeeds => torrent.upload_speed as int,
    }
}

/// What the torrents of a list are sorted by.
pub open spec fn sort_keys(torrents: Seq<&Torrent>, action: SortAction) -> Seq<int> {
    Seq::new(torrents.len(), |i: int| sort_key(action, *torrents[i]))
}

/// A list of torrents, those to be removed first in front; of several with one key, the one listed
/// first.
pub open spec fn sorted(torrents: Seq<&Torrent>, action: SortAction) -> Seq<&Torrent> {
    taken(torrents, order(sort_keys(torrents, action)))
}

fn key(action: SortAction, torrent: &Torrent) -> (key: i128)
    ensures
        key == sort_key(action, *torrent),
{
    match action {
        SortAction::RemoveOldSeeds => torrent.create_time as i128,
        SortAction::RemoveNewSeeds => -(torrent.create_time as i128),
        SortAction::RemoveBigSeeds => -(torrent.size as i128),
        SortAction::RemoveSmallSeeds => torrent.size as i128,
        SortAction::RemoveActiveSeeds => match torrent.last_activity {
            Some(seconds) => seconds as i128,
            None => u64::MAX as i128,
        },
        SortAction::RemoveInactiveSeeds => match torrent.last_activity {
            Some(seconds) => -(seconds as i128),
            None => 0,
        },
        SortAction::RemoveFastUploadSeeds => -(torrent.upload_speed as i128),
        SortAction::RemoveSlowUploadSeeds => torrent.upload_speed as i128,
    }
}

/// Sorts torrents: those to be removed first come in front, and equal ones stay in their order.
pub fn sort_torrents<'a>(torrents: &Vec<&'a Torrent>, action: SortAction) -> (ordered: Vec<
    &'a Torrent,
>)
    ensures
        ordered@ == sorted(torrents@, action),
{
    let mut keys: Vec<i128> = Vec::new();
    let mut i: usize = 0;
    while i < torrents.len()
        invariant
            i <= torrents@.len(),
            keys@.len() == i,
            forall|j: int| 0 <= j < i ==> #[trigger] keys@[j] == sort_key(action, *torrents@[j]),
        decreases torrents.len() - i,
    {
        keys.push(key(action, torrents[i]));
        i = i + 1;
    }
    let places = order_places(&keys);
    let ghost wanted = order(sort_keys(torrents@, action));
    proof {
        assert(integers(keys@) =~= sort_keys(torrents@, action));
        assert(places_of(places@) == wanted);
    }
    let mut ordered: Vec<&'a Torrent> = Vec::new();
    let mut k: usize = 0;
    while k < places.len()
        invariant
            k <= places@.len(),
            places@.len() == torrents@.len(),
            places_of(places@) == wanted,
            is_order(sort_keys(torrents@, action), wanted),
            ordered@.len() == k,
            forall|j: int| 0 <= j < k ==> #[trigger] ordered@[j] == torrents@[wanted[j]],
        decreases places.len() - k,
    {
        assert(wanted[k as int] == places@[k as int]);
        ordered.push(torrents[places[k]]);
        k = k + 1;
    }
    assert(ordered@ =~= sorted(torrents@, action));
    ordered
}

/// How many bytes are kept of the first `count` torrents, when those are kept that stay below a
/// limit together with what is kept before them.
pub open spec fn kept_bytes(torrents: Seq<&Torrent>, limit: Number, count: nat) -> Number
    decreases count,
{
    if count == 0 {
        of_integer(0)
    } else {
        let before = kept_bytes(torrents, limit, (count - 1) as nat);
        let with = before.sum(of_integer(torrents[count - 1].size as int));
        if with.is_less(limit) {
            with
        } else {
            before
        }
    }
}

/// Whether the torrent at `at` stays below a limit together with what is kept before it.
pub open spec fn is_kept(torrents: Seq<&Torrent>, limit: Number, at: int) -> bool {
    kept_bytes(torrents, limit, at as nat).sum(of_integer(torrents[at].size as int)).is_less(limit)
}

/// The torrents among the first `count` that are kept below a limit, or those that are not.
pub open spec fn within(torrents: Seq<&Torrent>, limit: Number, count: nat, kept: bool) -> Seq<
    &Torrent,
>
    decreases count,
{
    if count == 0 {
        Seq::empty()
    } else {
        let before = within(torrents, limit, (count - 1) as nat, kept);
        if is_kept(torrents, limit, count - 1) == kept {
            before.push(torrents[count - 1])
        } else {
            before
        }
    }
}

/// Keeps torrents as long as they take less than a limit, those first that would be removed last.
pub fn apply_seed_size<'a>(torrents: &Vec<&'a Torrent>, limit_gib: Number, action: SortAction) -> (division:
    Division<'a>)
    ensures
        ({
            let listed = sorted(torrents@, action).reverse();
            let limit = limit_gib.product(of_integer(BYTES_PER_GIB as int));
            &&& division.remain@ == within(listed, limit, listed.len(), true)
            &&& division.remove@ == within(listed, limit, listed.len(), false)
        }),
{
    let ordered = sort_torrents(torrents, action);
    let ghost listed = sorted(torrents@, action).reverse();
    let mut remain: Vec<&'a Torrent> = Vec::new();
    let mut remove: Vec<&'a Torrent> = Vec::new();
    let limit = gib_to_bytes(limit_gib);
    let mut sum = Number::from_natural(0);
    let mut i: usize = 0;
    while i < ordered.len()
        invariant
            i <= ordered@.len(),
            listed == ordered@.reverse(),
            sum == kept_bytes(listed, limit, i as nat),
            sum.is_unsigned(),
            remain@ == within(listed, limit, i as nat, true),
            remove@ == within(listed, limit, i as nat, false),
        decreases ordered.len() - i,
    {
        let torrent = ordered[ordered.len() - 1 - i];
        assert(listed[i as int] == torrent);
        let with = sum.plus(Number::from_natural(torrent.size));
        if with.less(limit) {
            sum = with;
            remain.push(torrent);
        } else {
            remove.push(torrent);
        }
        i = i + 1;
    }
    Division { remain, remove }
}

/// How many torrents are removed so that no more than a limit remain.
pub open spec fn surplus(count: nat, limit: usize) -> int {
    if limit < count {
        count - limit
    } else {
        0
    }
}

/// Removes torrents until no more than a limit remain.
pub fn apply_maximum_number<'a>(torrents: &Vec<&'a Torrent>, limit: usize, action: SortAction) -> (division:
    Division<'a>)
    ensures
        ({
            let listed = sorted(torrents@, action);
            &&& division.remain@ == listed.skip(surplus(listed.len(), limit))
            &&& division.remove@ == listed.take(surplus(listed.len(), limit))
        }),
{
    let ordered = sort_torrents(torrents, action);
    let cut: usize = if limit < ordered.len() {
        ordered.len() - limit
    } else {
        0
    };
    let mut remain: Vec<&'a Torrent> = Vec::new();
    let mut remove: Vec<&'a Torrent> = Vec::new();
    let mut i: usize = 0;
    while i < ordered.len()
        invariant
            i <= ordered@.len(),
            cut <= ordered@.len(),
            remove@ =~= ordered@.take(if i < cut {
                i as int
            } else {
                cut as int
            }),
            remain@ =~= ordered@.subrange(
                cut as int,
                if i < cut {
                    cut as int
                } else {
                    i as int
                },
            ),
        decreases ordered.len() - i,
    {
        if i < cut {
            remove.push(ordered[i]);
        } else {
            remain.push(ordered[i]);
        }
        i = i + 1;
    }
    assert(remain@ =~= ordered@.skip(cut as int));
    Division { remain, remove }
}

/// How many bytes are free once those of the first `count` torrents are removed that are listed while
/// there is less free space than asked for.
pub open spec fn freed_bytes(
    torrents: Seq<&Torrent>,
    free: Number,
    least: Number,
    count: nat,
) -> Number
    decreases count,
{
    if count == 0 {
        free
    } else {
        let before = freed_bytes(torrents, free, least, (count - 1) as nat);
        if before.is_less(least) {
            before.sum(of_integer(torrents[count - 1].size as int))
        } else {
            before
        }
    }
}

/// The torrents among the first `count` that are removed to free space, or those that are not.
pub open spec fn freeing(
    torrents: Seq<&Torrent>,
    free: Number,
    least: Number,
    count: nat,
    removed: bool,
) -> Seq<&Torrent>
    decreases count,
{
    if count == 0 {
        Seq::empty()
    } else {
        let before = freeing(torrents, free, least, (count - 1) as nat, removed);
        if freed_bytes(torrents, free, least, (count - 1) as nat).is_less(least) == removed {
            before.push(torrents[count - 1])
        } else {
            before
        }
    }
}

/// Removes torrents as long as less space is free than asked for.
pub fn apply_free_space<'a>(
    torrents: &Vec<&'a Torrent>,
    current_free_space: u64,
    min_gib: Number,
    action: SortAction,
) -> (division: Division<'a>)
    ensures
        ({
            let listed = sorted(torrents@, action);
            let free = of_integer(current_free_space as int);
            let least = min_gib.product(of_integer(BYTES_PER_GIB as int));
            &&& division.remain@ == freeing(listed, free, least, listed.len(), false)
            &&& division.remove@ == freeing(listed, free, least, listed.len(), true)
        }),
{
    let ordered = sort_torrents(torrents, action);
    let mut remain: Vec<&'a Torrent> = Vec::new();
    let mut remove: Vec<&'a Torrent> = Vec::new();
    let least = gib_to_bytes(min_gib);
    let ghost start = of_integer(current_free_space as int);
    let mut free = Number::from_natural(current_free_space);
    let mut i: usize = 0;
    while i < ordered.len()
        invariant
            i <= ordered@.len(),
            free == freed_bytes(ordered@, start, least, i as nat),
            free.is_unsigned(),
            remain@ == freeing(ordered@, start, least, i as nat, false),
            remove@ == freeing(ordered@, start, least, i as nat, true),
        decreases ordered.len() - i,
    {
        let torrent = ordered[i];
        if free.less(least) {
            free = free.plus(Number::from_natural(torrent.size));
            remove.push(torrent);
        } else {
            remain.push(torrent);
        }
        i = i + 1;
    }
    Division { remain, remove }
}

/// How a condition divides a list of torrents: what remains and what is removed. `available` is how
/// many bytes are free on the filesystem that the condition names, as far as that is known.
pub open spec fn divided(
    condition: ConditionSpec,
    client_status: ClientStatus,
    available: Option<u64>,
    torrents: Seq<&Torrent>,
    now: i64,
) -> Result<(Seq<&Torrent>, Seq<&Torrent>), ConditionError> {
    match condition {
        ConditionSpec::Nothing => Ok((torrents, Seq::empty())),
        ConditionSpec::SeedSize { limit_gib, action } => {
            let listed = sorted(torrents, action).reverse();
            let limit = limit_gib.product(of_integer(BYTES_PER_GIB as int));
            Ok(
                (
                    within(listed, limit, listed.len(), true),
                    within(listed, limit, listed.len(), false),
                ),
            )
        },
        ConditionSpec::MaximumNumber { limit, action } => {
            let listed = sorted(torrents, action);
            let cut = surplus(listed.len(), limit);
            Ok((listed.skip(cut), listed.take(cut)))
        },
        ConditionSpec::FreeSpace { min_gib, path, action } => match available {
            None => Err(ConditionError::FilesystemUnknown),
            Some(bytes) => Ok(divided_by_space(torrents, bytes, min_gib, action)),
        },
        ConditionSpec::RemoteFreeSpace { min_gib, path, action } => match client_status.free_space_on_disk {
            None => Err(ConditionError::RemoteUnknown),
            Some(bytes) => Ok(divided_by_space(torrents, bytes, min_gib, action)),
        },
        _ => Ok(
            (
                selected(torrents, condition, now, false),
                selected(torrents, condition, now, true),
            ),
        ),
    }
}

/// How a demand for free space divides a list of torrents.
pub open spec fn divided_by_space(
    torrents: Seq<&Torrent>,
    bytes: u64,
    min_gib: Number,
    action: SortAction,
) -> (Seq<&Torrent>, Seq<&Torrent>) {
    let listed = sorted(torrents, action);
    let free = of_integer(bytes as int);
    let least = min_gib.product(of_integer(BYTES_PER_GIB as int));
    (
        freeing(listed, free, least, listed.len(), false),
        freeing(listed, free, least, listed.len(), true),
    )
}

/// Divides a list of torrents by a condition. `available` is how many bytes are free on the
/// filesystem that the condition names, as far as that is known.
pub fn apply_condition<'a>(
    condition: &ConditionSpec,
    client_status: &ClientStatus,
    available: Option<u64>,
    torrents: Vec<&'a Torrent>,
    now: i64,
) -> (outcome: Result<Division<'a>, ConditionError>)
    ensures
        match outcome {
            Ok(division) => divided(*condition, *client_status, available, torrents@, now) == Ok::<
                (Seq<&Torrent>, Seq<&Torrent>),
                ConditionError,
            >((division.remain@, division.remove@)),
            Err(error) => divided(*condition, *client_status, available, torrents@, now) == Err::<
                (Seq<&Torrent>, Seq<&Torrent>),
                ConditionError,
            >(error),
        },
{
    match condition {
        ConditionSpec::Nothing => {
            let remove: Vec<&'a Torrent> = Vec::new();
            Ok(Division { remain: torrents, remove })
        },
        ConditionSpec::SeedSize { limit_gib, action } => Ok(
            apply_seed_size(&torrents, *limit_gib, *action),
        ),
        ConditionSpec::MaximumNumber { limit, action } => Ok(
            apply_maximum_number(&torrents, *limit, *action),
        ),
        ConditionSpec::FreeSpace { min_gib, path: _, action } => match available {
            None => Err(ConditionError::FilesystemUnknown),
            Some(bytes) => Ok(apply_free_space(&torrents, bytes, *min_gib, *action)),
        },
        ConditionSpec::RemoteFreeSpace {
            min_gib,
            path: _,
            action,
        } => match client_status.free_space_on_disk {
            None => Err(ConditionError::RemoteUnknown),
            Some(bytes) => Ok(apply_free_space(&torrents, bytes, *min_gib, *action)),
        },
        _ => Ok(partition_by(&torrents, condition, now)),
    }
}

proof fn lemma_selected_keeps_all(torrents: Seq<&Torrent>, condition: ConditionSpec, now: i64)
    ensures
        selected(torrents, condition, now, false).to_multiset().add(
            selected(torrents, condition, now, true).to_multiset(),
        ) =~= torrents.to_multiset(),
    decreases torrents.len(),
{
    broadcast use vstd::seq_lib::group_to_multiset_ensures;

    if torrents.len() > 0 {
        lemma_selected_keeps_all(torrents.drop_last(), condition, now);
        assert(torrents =~= torrents.drop_last().push(torrents.last()));
    }
}

proof fn lemma_within_keeps_all(torrents: Seq<&Torrent>, limit: Number, count: nat)
    requires
        count <= torrents.len(),
    ensures
        within(torrents, limit, count, true).to_multiset().add(
            within(torrents, limit, count, false).to_multiset(),
        ) =~= torrents.take(count as int).to_multiset(),
    decreases count,
{
    broadcast use vstd::seq_lib::group_to_multiset_ensures;

    if count > 0 {
        lemma_within_keeps_all(torrents, limit, (count - 1) as nat);
        assert(torrents.take(count as int) =~= torrents.take(count - 1).push(torrents[count - 1]));
    } else {
        assert(torrents.take(0) =~= Seq::<&Torrent>::empty());
    }
}

proof fn lemma_freeing_keeps_all(
    torrents: Seq<&Torrent>,
    free: Number,
    least: Number,
    count: nat,
)
    requires
        count <= torrents.len(),
    ensures
        freeing(torrents, free, least, count, false).to_multiset().add(
            freeing(torrents, free, least, count, true).to_multiset(),
        ) =~= torrents.take(count as int).to_multiset(),
    decreases count,
{
    broadcast use vstd::seq_lib::group_to_multiset_ensures;

    if count > 0 {
        lemma_freeing_keeps_all(torrents, free, least, (count - 1) as nat);
        assert(torrents.take(count as int) =~= torrents.take(count - 1).push(torrents[count - 1]));
    } else {
        assert(torrents.take(0) =~= Seq::<&Torrent>::empty());
    }
}

/// Sorting keeps every torrent, as often as it is listed, and puts none in front of one that is to be
/// removed before it.
pub proof fn law_sorting_keeps_torrents(torrents: Seq<&Torrent>, action: SortAction)
    ensures
        sorted(torrents, action).to_multiset() == torrents.to_multiset(),
        sorted(torrents, action).len() == torrents.len(),
        forall|i: int, j: int|
            0 <= i < j < torrents.len() ==> sort_key(action, *#[trigger] sorted(torrents, action)[i])
                <= sort_key(action, *#[trigger] sorted(torrents, action)[j]),
{
    let keys = sort_keys(torrents, action);
    lemma_order_exists(keys);
    lemma_order_is_permutation(keys, order(keys));
    lemma_taken_keeps_all(torrents, order(keys));
    assert forall|i: int, j: int| 0 <= i < j < torrents.len() implies sort_key(
        action,
        *#[trigger] sorted(torrents, action)[i],
    ) <= sort_key(action, *#[trigger] sorted(torrents, action)[j]) by {
        assert(precedes(keys, order(keys)[i], order(keys)[j]));
    }
}

/// A condition neither loses nor invents a torrent: what remains and what is removed are together
/// what there was.
pub proof fn law_condition_keeps_torrents(
    condition: ConditionSpec,
    client_status: ClientStatus,
    available: Option<u64>,
    torrents: Seq<&Torrent>,
    now: i64,
)
    ensures
        divided(condition, client_status, available, torrents, now) matches Ok((remain, remove))
            ==> remain.to_multiset().add(remove.to_multiset()) == torrents.to_multiset(),
{
    match condition {
        ConditionSpec::Nothing => {
            lemma_multiset_concat(torrents, Seq::<&Torrent>::empty());
            assert(torrents + Seq::<&Torrent>::empty() =~= torrents);
        },
        ConditionSpec::SeedSize { limit_gib, action } => {
            let listed = sorted(torrents, action).reverse();
            let limit = limit_gib.product(of_integer(BYTES_PER_GIB as int));
            lemma_within_keeps_all(listed, limit, listed.len());
            assert(listed.take(listed.len() as int) =~= listed);
            sorted(torrents, action).lemma_reverse_to_multiset();
            law_sorting_keeps_torrents(torrents, action);
        },
        ConditionSpec::MaximumNumber { limit, action } => {
            let listed = sorted(torrents, action);
            let cut = surplus(listed.len(), limit);
            lemma_multiset_concat(listed.take(cut), listed.skip(cut));
            assert(listed.take(cut) + listed.skip(cut) =~= listed);
            law_sorting_keeps_torrents(torrents, action);
            assert(listed.skip(cut).to_multiset().add(listed.take(cut).to_multiset())
                =~= listed.take(cut).to_multiset().add(listed.skip(cut).to_multiset()));
        },
        ConditionSpec::FreeSpace { min_gib, path, action } => {
            if let Some(bytes) = available {
                lemma_space_keeps_all(torrents, bytes, min_gib, action);
            }
        },
        ConditionSpec::RemoteFreeSpace { min_gib, path, action } => {
            if let Some(bytes) = client_status.free_space_on_disk {
                lemma_space_keeps_all(torrents, bytes, min_gib, action);
            }
        },
        _ => {
            lemma_selected_keeps_all(torrents, condition, now);
        },
    }
}

proof fn lemma_space_keeps_all(
    torrents: Seq<&Torrent>,
    bytes: u64,
    min_gib: Number,
    action: SortAction,
)
    ensures
        divided_by_space(torrents, bytes, min_gib, action).0.to_multiset().add(
            divided_by_space(torrents, bytes, min_gib, action).1.to_multiset(),
        ) == torrents.to_multiset(),
{
    let listed = sorted(torrents, action);
    let least = min_gib.product(of_integer(BYTES_PER_GIB as int));
    lemma_freeing_keeps_all(listed, of_integer(bytes as int), least, listed.len());
    assert(listed.take(listed.len() as int) =~= listed);
    law_sorting_keeps_torrents(torrents, action);
}

/// A condition given by a keyword removes the same torrents as the `remove` expression that states
/// it.
pub proof fn law_keyword_is_expression(
    condition: ConditionSpec,
    parameter: Parameter,
    comparer: Comparer,
    limit: Number,
    torrent: Torrent,
    now: i64,
)
    requires
        limit_of(condition) == Some((parameter, comparer, limit)),
    ensures
        meets(condition, torrent, now) == holds(
            (ExpressionView::Relation { parameter, comparer, value: LiteralView::Number(limit) }),
            torrent,
            now,
        ),
{
}

/// No more torrents remain than a maximum number, and those that are removed are removed before
/// those that remain.
pub proof fn law_maximum_number_is_kept(
    limit: usize,
    action: SortAction,
    client_status: ClientStatus,
    available: Option<u64>,
    torrents: Seq<&Torrent>,
    now: i64,
)
    ensures
        divided(
            (ConditionSpec::MaximumNumber { limit, action }),
            client_status,
            available,
            torrents,
            now,
        ) matches Ok((remain, remove)) && remain.len() == (if torrents.len() < limit {
            torrents.len()
        } else {
            limit as nat
        }) && forall|i: int, j: int|
            0 <= i < remove.len() && 0 <= j < remain.len() ==> sort_key(
                action,
                *#[trigger] remove[i],
            ) <= sort_key(action, *#[trigger] remain[j]),
{
    law_sorting_keeps_torrents(torrents, action);
    let listed = sorted(torrents, action);
    let cut = surplus(listed.len(), limit);
    let remove = listed.take(cut);
    let remain = listed.skip(cut);
    assert forall|i: int, j: int| 0 <= i < remove.len() && 0 <= j < remain.len() implies sort_key(
        action,
        *#[trigger] remove[i],
    ) <= sort_key(action, *#[trigger] remain[j]) by {
        assert(remove[i] == listed[i]);
        assert(remain[j] == listed[cut + j]);
    }
}

/// Torrents are removed to free space until there is as much as asked for; only if none is left may
/// there be less.
pub proof fn law_free_space_is_reached(
    torrents: Seq<&Torrent>,
    free: Number,
    least: Number,
    count: nat,
)
    ensures
        freed_bytes(torrents, free, least, count).is_less(least) ==> freeing(
            torrents,
            free,
            least,
            count,
            false,
        ).len() == 0,
    decreases count,
{
    if count > 0 {
        law_free_space_is_reached(torrents, free, least, (count - 1) as nat);
    }
}

/// What is kept of torrents under a limit on their total size stays below it.
pub proof fn law_seed_size_is_kept(torrents: Seq<&Torrent>, limit: Number, count: nat)
    ensures
        within(torrents, limit, count, true).len() > 0 ==> kept_bytes(
            torrents,
            limit,
            count,
        ).is_less(limit),
    decreases count,
{
    if count > 0 {
        law_seed_size_is_kept(torrents, limit, (count - 1) as nat);
    }
}

/// The path of a condition on qBittorrent's free space says nothing.
pub proof fn law_remote_path_is_ignored(
    min_gib: Number,
    left: String,
    right: String,
    action: SortAction,
    client_status: ClientStatus,
    available: Option<u64>,
    torrents: Seq<&Torrent>,
    now: i64,
)
    ensures
        divided(
            (ConditionSpec::RemoteFreeSpace { min_gib, path: left, action }),
            client_status,
            available,
            torrents,
            now,
        ) == divided(
            (ConditionSpec::RemoteFreeSpace { min_gib, path: right, action }),
            client_status,
            available,
            torrents,
            now,
        ),
{
}

/// The torrents among the first `count` of a list whose mark is as wanted, in their order.
pub open spec fn marked(torrents: Seq<&Torrent>, marks: Seq<bool>, wanted: bool, count: nat) -> Seq<
    &Torrent,
>
    decreases count,
{
    if count == 0 {
        Seq::empty()
    } else {
        let before = marked(torrents, marks, wanted, (count - 1) as nat);
        if marks[count - 1] == wanted {
            before.push(torrents[count - 1])
        } else {
            before
        }
    }
}

/// A number of bytes, and on top of it the sizes of the marked torrents among the first `count`.
pub open spec fn marked_bytes(start: Number, torrents: Seq<&Torrent>, marks: Seq<bool>, count: nat) -> Number
    decreases count,
{
    if count == 0 {
        start
    } else if marks[count - 1] {
        marked_bytes(start, torrents, marks, (count - 1) as nat).sum(
            of_integer(torrents[count - 1].size as int),
        )
    } else {
        marked_bytes(start, torrents, marks, (count - 1) as nat)
    }
}

/// Whether marks are set on those torrents, and only on those, that stay below a limit together with
/// the marked ones before them.
pub open spec fn marks_what_fits(torrents: Seq<&Torrent>, limit: Number, marks: Seq<bool>) -> bool {
    &&& marks.len() == torrents.len()
    &&& forall|i: int|
        0 <= i < torrents.len() ==> #[trigger] marks[i] == marked_bytes(
            of_integer(0),
            torrents,
            marks,
            i as nat,
        ).sum(of_integer(torrents[i].size as int)).is_less(limit)
}

/// Whether marks are set on those torrents, and only on those, before which too little space is free,
/// the sizes of the marked ones before them included.
pub open spec fn marks_what_is_needed(
    torrents: Seq<&Torrent>,
    free: Number,
    least: Number,
    marks: Seq<bool>,
) -> bool {
    &&& marks.len() == torrents.len()
    &&& forall|i: int|
        0 <= i < torrents.len() ==> #[trigger] marks[i] == marked_bytes(
            free,
            torrents,
            marks,
            i as nat,
        ).is_less(least)
}

/// A limit on the total size is gone through from those that would be removed last to those that
/// would be removed first. A torrent remains if and only if it stays below the limit together with
/// those that remain before it, whatever became of others before it.
pub proof fn law_seed_size_keeps_what_fits(
    limit_gib: Number,
    action: SortAction,
    client_status: ClientStatus,
    available: Option<u64>,
    torrents: Seq<&Torrent>,
    now: i64,
)
    ensures
        exists|marks: Seq<bool>| #[trigger]
            marks_what_fits(
                sorted(torrents, action).reverse(),
                limit_gib.product(of_integer(1_073_741_824)),
                marks,
            ) && divided(
                (ConditionSpec::SeedSize { limit_gib, action }),
                client_status,
                available,
                torrents,
                now,
            ) == Ok::<(Seq<&Torrent>, Seq<&Torrent>), ConditionError>(
                (
                    marked(sorted(torrents, action).reverse(), marks, true, torrents.len()),
                    marked(sorted(torrents, action).reverse(), marks, false, torrents.len()),
                ),
            ),
{
    law_sorting_keeps_torrents(torrents, action);
    let listed = sorted(torrents, action).reverse();
    let limit = limit_gib.product(of_integer(1_073_741_824));
    let marks = Seq::new(listed.len(), |i: int| is_kept(listed, limit, i));
    assert forall|i: int| 0 <= i < listed.len() implies #[trigger] marks[i] == marked_bytes(
        of_integer(0),
        listed,
        marks,
        i as nat,
    ).sum(of_integer(listed[i].size as int)).is_less(limit) by {
        lemma_kept_is_marked(listed, limit, marks, i as nat);
    }
    lemma_kept_is_marked(listed, limit, marks, listed.len());
    assert(marks_what_fits(listed, limit, marks));
}

proof fn lemma_kept_is_marked(
    listed: Seq<&Torrent>,
    limit: Number,
    marks: Seq<bool>,
    count: nat,
)
    requires
        count <= listed.len(),
        marks == Seq::new(listed.len(), |i: int| is_kept(listed, limit, i)),
    ensures
        kept_bytes(listed, limit, count) == marked_bytes(of_integer(0), listed, marks, count),
        within(listed, limit, count, true) == marked(listed, marks, true, count),
        within(listed, limit, count, false) == marked(listed, marks, false, count),
    decreases count,
{
    if count > 0 {
        lemma_kept_is_marked(listed, limit, marks, (count - 1) as nat);
        assert(marks[count - 1] == is_kept(listed, limit, count - 1));
    }
}

/// A demand for free space is gone through from those that are to be removed first. A torrent is
/// removed if and only if less is free than asked for before it, with what is removed before it
/// counted in. What is free is known from the filesystem that the condition names, or from
/// qBittorrent; where it is not, there is an error.
pub proof fn law_free_space_removes_what_is_needed(
    min_gib: Number,
    path: String,
    action: SortAction,
    client_status: ClientStatus,
    available: Option<u64>,
    torrents: Seq<&Torrent>,
    now: i64,
)
    ensures
        available is None ==> divided(
            (ConditionSpec::FreeSpace { min_gib, path, action }),
            client_status,
            available,
            torrents,
            now,
        ) == Err::<(Seq<&Torrent>, Seq<&Torrent>), ConditionError>(
            ConditionError::FilesystemUnknown,
        ),
        client_status.free_space_on_disk is None ==> divided(
            (ConditionSpec::RemoteFreeSpace { min_gib, path, action }),
            client_status,
            available,
            torrents,
            now,
        ) == Err::<(Seq<&Torrent>, Seq<&Torrent>), ConditionError>(ConditionError::RemoteUnknown),
        available matches Some(bytes) ==> exists|marks: Seq<bool>| #[trigger]
            marks_what_is_needed(
                sorted(torrents, action),
                of_integer(bytes as int),
                min_gib.product(of_integer(1_073_741_824)),
                marks,
            ) && divided(
                (ConditionSpec::FreeSpace { min_gib, path, action }),
                client_status,
                available,
                torrents,
                now,
            ) == Ok::<(Seq<&Torrent>, Seq<&Torrent>), ConditionError>(
                (
                    marked(sorted(torrents, action), marks, false, torrents.len()),
                    marked(sorted(torrents, action), marks, true, torrents.len()),
                ),
            ),
        client_status.free_space_on_disk matches Some(bytes) ==> exists|marks: Seq<bool>| #[trigger]
            marks_what_is_needed(
                sorted(torrents, action),
                of_integer(bytes as int),
                min_gib.product(of_integer(1_073_741_824)),
                marks,
            ) && divided(
                (ConditionSpec::RemoteFreeSpace { min_gib, path, action }),
                client_status,
                available,
                torrents,
                now,
            ) == Ok::<(Seq<&Torrent>, Seq<&Torrent>), ConditionError>(
                (
                    marked(sorted(torrents, action), marks, false, torrents.len()),
                    marked(sorted(torrents, action), marks, true, torrents.len()),
                ),
            ),
{
    if let Some(bytes) = available {
        lemma_space_is_marked(torrents, bytes, min_gib, action);
    }
    if let Some(bytes) = client_status.free_space_on_disk {
        lemma_space_is_marked(torrents, bytes, min_gib, action);
    }
}

proof fn lemma_space_is_marked(
    torrents: Seq<&Torrent>,
    bytes: u64,
    min_gib: Number,
    action: SortAction,
)
    ensures
        exists|marks: Seq<bool>| #[trigger]
            marks_what_is_needed(
                sorted(torrents, action),
                of_integer(bytes as int),
                min_gib.product(of_integer(1_073_741_824)),
                marks,
            ) && divided_by_space(torrents, bytes, min_gib, action) == (
                marked(sorted(torrents, action), marks, false, torrents.len()),
                marked(sorted(torrents, action), marks, true, torrents.len()),
            ),
{
    law_sorting_keeps_torrents(torrents, action);
    let listed = sorted(torrents, action);
    let free = of_integer(bytes as int);
    let least = min_gib.product(of_integer(1_073_741_824));
    let marks = Seq::new(
        listed.len(),
        |i: int| freed_bytes(listed, free, least, i as nat).is_less(least),
    );
    assert forall|i: int| 0 <= i < listed.len() implies #[trigger] marks[i] == marked_bytes(
        free,
        listed,
        marks,
        i as nat,
    ).is_less(least) by {
        lemma_freed_is_marked(listed, free, least, marks, i as nat);
    }
    lemma_freed_is_marked(listed, free, least, marks, listed.len());
    assert(marks_what_is_needed(listed, free, least, marks));
}

proof fn lemma_freed_is_marked(
    listed: Seq<&Torrent>,
    free: Number,
    least: Number,
    marks: Seq<bool>,
    count: nat,
)
    requires
        count <= listed.len(),
        marks == Seq::new(
            listed.len(),
            |i: int| freed_bytes(listed, free, least, i as nat).is_less(least),
        ),
    ensures
        freed_bytes(listed, free, least, count) == marked_bytes(free, listed, marks, count),
        freeing(listed, free, least, count, true) == marked(listed, marks, true, count),
        freeing(listed, free, least, count, false) == marked(listed, marks, false, count),
    decreases count,
{
    if count > 0 {
        lemma_freed_is_marked(listed, free, least, marks, (count - 1) as nat);
        assert(marks[count - 1] == freed_bytes(listed, free, least, (count - 1) as nat).is_less(
            least,
        ));
    }
}

/// A maximum number removes a front part of the sorted torrents and leaves the rest: none if there
/// are no more than the limit, else as many as there are too many.
pub proof fn law_maximum_number_cuts_the_front(
    limit: usize,
    action: SortAction,
    client_status: ClientStatus,
    available: Option<u64>,
    torrents: Seq<&Torrent>,
    now: i64,
)
    ensures
        divided(
            (ConditionSpec::MaximumNumber { limit, action }),
            client_status,
            available,
            torrents,
            now,
        ) matches Ok((remain, remove)) && remove + remain == sorted(torrents, action) && (
        torrents.len() <= limit ==> remove.len() == 0) && (torrents.len() > limit ==> remain.len()
            == limit),
{
    law_sorting_keeps_torrents(torrents, action);
    let listed = sorted(torrents, action);
    let cut = surplus(listed.len(), limit);
    assert(listed.take(cut) + listed.skip(cut) =~= listed);
}

/// A condition that looks at each torrent by itself removes those that meet it and leaves the others,
/// in their order; one that asks for nothing removes none.
pub proof fn law_each_torrent_is_judged_by_itself(
    condition: ConditionSpec,
    client_status: ClientStatus,
    available: Option<u64>,
    torrents: Seq<&Torrent>,
    now: i64,
)
    requires
        !(condition is SeedSize),
        !(condition is MaximumNumber),
        !(condition is FreeSpace),
        !(condition is RemoteFreeSpace),
    ensures
        ({
            let marks = Seq::new(
                torrents.len(),
                |i: int| !(condition is Nothing) && meets(condition, *torrents[i], now),
            );
            divided(condition, client_status, available, torrents, now) == Ok::<
                (Seq<&Torrent>, Seq<&Torrent>),
                ConditionError,
            >(
                (
                    marked(torrents, marks, false, torrents.len()),
                    marked(torrents, marks, true, torrents.len()),
                ),
            )
        }),
{
    let marks = Seq::new(
        torrents.len(),
        |i: int| !(condition is Nothing) && meets(condition, *torrents[i], now),
    );
    if condition is Nothing {
        lemma_none_marked(torrents, marks, torrents.len());
        assert(torrents.take(torrents.len() as int) =~= torrents);
    } else {
        lemma_selected_is_marked(torrents, condition, now, marks, torrents.len());
        assert(torrents.take(torrents.len() as int) =~= torrents);
    }
}

proof fn lemma_none_marked(torrents: Seq<&Torrent>, marks: Seq<bool>, count: nat)
    requires
        count <= torrents.len() == marks.len(),
        forall|i: int| 0 <= i < marks.len() ==> !#[trigger] marks[i],
    ensures
        marked(torrents, marks, false, count) == torrents.take(count as int),
        marked(torrents, marks, true, count) == Seq::<&Torrent>::empty(),
    decreases count,
{
    if count > 0 {
        lemma_none_marked(torrents, marks, (count - 1) as nat);
        assert(!marks[count - 1]);
        assert(torrents.take(count as int) =~= torrents.take(count - 1).push(torrents[count - 1]));
    } else {
        assert(torrents.take(0) =~= Seq::<&Torrent>::empty());
    }
}

proof fn lemma_selected_is_marked(
    torrents: Seq<&Torrent>,
    condition: ConditionSpec,
    now: i64,
    marks: Seq<bool>,
    count: nat,
)
    requires
        count <= torrents.len() == marks.len(),
        forall|i: int|
            0 <= i < marks.len() ==> #[trigger] marks[i] == meets(condition, *torrents[i], now),
    ensures
        selected(torrents.take(count as int), condition, now, false) == marked(
            torrents,
            marks,
            false,
            count,
        ),
        selected(torrents.take(count as int), condition, now, true) == marked(
            torrents,
            marks,
            true,
            count,
        ),
    decreases count,
{
    if count > 0 {
        lemma_selected_is_marked(torrents, condition, now, marks, (count - 1) as nat);
        assert(torrents.take(count as int).drop_last() =~= torrents.take(count - 1));
        assert(marks[count - 1] == meets(condition, *torrents[count - 1], now));
    }
}

/// Whether one torrent is to be removed no later than another.
pub open spec fn goes_first(action: SortAction, left: Torrent, right: Torrent) -> bool {
    match action {
        SortAction::RemoveOldSeeds => left.create_time <= right.create_time,
        SortAction::RemoveNewSeeds => left.create_time >= right.create_time,
        SortAction::RemoveBigSeeds => left.size >= right.size,
        SortAction::RemoveSmallSeeds => left.size <= right.size,
        SortAction::RemoveActiveSeeds => match (left.last_activity, right.last_activity) {
            (Some(a), Some(b)) => a <= b,
            (None, Some(b)) => b == u64::MAX,
            (_, None) => true,
        },
        SortAction::RemoveInactiveSeeds => match (left.last_activity, right.last_activity) {
            (Some(a), Some(b)) => a >= b,
            (None, Some(b)) => b == 0,
            (_, None) => true,
        },
        SortAction::RemoveFastUploadSeeds => left.upload_speed >= right.upload_speed,
        SortAction::RemoveSlowUploadSeeds => left.upload_speed <= right.upload_speed,
    }
}

/// Whether places name each place of a list once, so that torrents to be removed first come in front
/// and those that are to be removed alike keep their order.
pub open spec fn is_removal_order(
    torrents: Seq<&Torrent>,
    action: SortAction,
    places: Seq<int>,
) -> bool {
    &&& places.len() == torrents.len()
    &&& forall|i: int| 0 <= i < places.len() ==> 0 <= #[trigger] places[i] < torrents.len()
    &&& forall|i: int, j: int|
        0 <= i < j < places.len() ==> #[trigger] places[i] != #[trigger] places[j] && goes_first(
            action,
            *torrents[places[i]],
            *torrents[places[j]],
        ) && (goes_first(action, *torrents[places[j]], *torrents[places[i]]) ==> places[i]
            < places[j])
}

/// The actions sort as their names say: by age, size, last activity or upload speed. Torrents that
/// were never active count as those whose last activity is longest ago among the active ones, and as
/// active right now among the inactive ones.
pub proof fn law_sorting_follows_the_action(torrents: Seq<&Torrent>, action: SortAction)
    ensures
        exists|places: Seq<int>| #[trigger]
            is_removal_order(torrents, action, places) && sorted(torrents, action) == Seq::new(
                torrents.len(),
                |i: int| torrents[places[i]],
            ),
{
    let keys = sort_keys(torrents, action);
    let places = order(keys);
    lemma_order_exists(keys);
    lemma_order_is_permutation(keys, places);
    assert forall|i: int, j: int| 0 <= i < j < places.len() implies #[trigger] places[i]
        != #[trigger] places[j] && goes_first(
        action,
        *torrents[places[i]],
        *torrents[places[j]],
    ) && (goes_first(action, *torrents[places[j]], *torrents[places[i]]) ==> places[i]
        < places[j]) by {
        assert(precedes(keys, places[i], places[j]));
    }
    assert(is_removal_order(torrents, action, places));
    assert(sorted(torrents, action) =~= Seq::new(torrents.len(), |i: int| torrents[places[i]]));
}

/// What each keyword asks of a torrent. Limits on speeds are in KiB per second, limits on amounts of
/// data in GiB, and a limit on the progress is in per cent. The download speed counts only while
/// data is loaded; the upload speed and the connected peers count while data is loaded or seeded, and
/// alike in both cases; the upload ratio counts only for torrents of some size.
pub proof fn law_keywords_say_what_they_ask(limit: Number, torrent: Torrent, now: i64)
    ensures
        ({
            let kib = limit.product(of_integer(1024));
            let gib = limit.product(of_integer(1_073_741_824));
            let at_work = torrent.status == TorrentStatus::Downloading || torrent.status
                == TorrentStatus::Uploading;
            &&& !meets(ConditionSpec::Nothing, torrent, now)
            &&& meets(ConditionSpec::Ratio(limit), torrent, now) == limit.is_less(torrent.ratio)
            &&& meets(ConditionSpec::CreateTime(limit), torrent, now) == limit.is_less(
                of_integer(now - torrent.create_time),
            )
            &&& meets(ConditionSpec::DownloadingTime(limit), torrent, now) == limit.is_less(
                of_integer(torrent.downloading_time as int),
            )
            &&& meets(ConditionSpec::SeedingTime(limit), torrent, now) == limit.is_less(
                of_integer(torrent.seeding_time as int),
            )
            &&& meets(ConditionSpec::MaxDownload(limit), torrent, now) == gib.is_less(
                of_integer(torrent.downloaded as int),
            )
            &&& meets(ConditionSpec::MaxDownloadSpeed(limit), torrent, now) == (torrent.status
                == TorrentStatus::Downloading && kib.is_less(
                of_integer(torrent.download_speed as int),
            ))
            &&& meets(ConditionSpec::MinUploadSpeed(limit), torrent, now) == (at_work
                && of_integer(torrent.upload_speed as int).is_less(kib))
            &&& meets(ConditionSpec::MaxAverageDownloadSpeed(limit), torrent, now) == kib.is_less(
                of_integer(torrent.average_download_speed as int),
            )
            &&& meets(ConditionSpec::MinAverageUploadSpeed(limit), torrent, now) == of_integer(
                torrent.average_upload_speed as int,
            ).is_less(kib)
            &&& meets(ConditionSpec::MaxSize(limit), torrent, now) == gib.is_less(
                of_integer(torrent.size as int),
            )
            &&& meets(ConditionSpec::MaxSeeder(limit), torrent, now) == limit.is_less(
                of_integer(torrent.seeder as int),
            )
            &&& meets(ConditionSpec::MaxUpload(limit), torrent, now) == gib.is_less(
                of_integer(torrent.uploaded as int),
            )
            &&& meets(ConditionSpec::MinLeecher(limit), torrent, now) == of_integer(
                torrent.leecher as int,
            ).is_less(limit)
            &&& meets(ConditionSpec::MaxConnectedSeeder(limit), torrent, now) == (at_work
                && limit.is_less(of_integer(torrent.connected_seeder as int)))
            &&& meets(ConditionSpec::MinConnectedLeecher(limit), torrent, now) == (at_work
                && of_integer(torrent.connected_leecher as int).is_less(limit))
            &&& meets(
                ConditionSpec::LastActivity(LastActivityValue::Seconds(limit)),
                torrent,
                now,
            ) == (torrent.last_activity matches Some(seconds) && limit.is_less(
                of_integer(seconds as int),
            ))
            &&& meets(ConditionSpec::LastActivity(LastActivityValue::Never), torrent, now) == (
            torrent.last_activity is None)
            &&& meets(ConditionSpec::MaxProgress(limit), torrent, now) == limit.quotient(
                of_integer(100),
            ).is_less(torrent.progress)
            &&& meets(ConditionSpec::UploadRatio(limit), torrent, now) == (torrent.size > 0
                && limit.is_less(
                of_integer(torrent.uploaded as int).quotient(of_integer(torrent.size as int)),
            ))
        }),
{
}

/// Whether one number is less than, greater than or equal to another, as a comparer says.
pub open spec fn stands(left: Number, comparer: Comparer, right: Number) -> bool {
    ||| comparer == Comparer::Lt && left.is_less(right)
    ||| comparer == Comparer::Gt && right.is_less(left)
    ||| comparer == Comparer::Eq && left.is_same(right)
}

/// What each parameter of a `remove` expression stands for, in the same units and for the same
/// torrents as the keywords.
pub proof fn law_relations_say_what_they_ask(
    comparer: Comparer,
    limit: Number,
    torrent: Torrent,
    now: i64,
)
    ensures
        ({
            let kib = limit.product(of_integer(1024));
            let gib = limit.product(of_integer(1_073_741_824));
            let at_work = torrent.status == TorrentStatus::Downloading || torrent.status
                == TorrentStatus::Uploading;
            let met = |parameter: Parameter|
                holds(
                    (ExpressionView::Relation {
                        parameter,
                        comparer,
                        value: LiteralView::Number(limit),
                    }),
                    torrent,
                    now,
                );
            &&& met(Parameter::AverageDownloadSpeed) == stands(
                of_integer(torrent.average_download_speed as int),
                comparer,
                kib,
            )
            &&& met(Parameter::AverageUploadSpeed) == stands(
                of_integer(torrent.average_upload_speed as int),
                comparer,
                kib,
            )
            &&& met(Parameter::ConnectedLeecher) == (at_work && stands(
                of_integer(torrent.connected_leecher as int),
                comparer,
                limit,
            ))
            &&& met(Parameter::ConnectedSeeder) == (at_work && stands(
                of_integer(torrent.connected_seeder as int),
                comparer,
                limit,
            ))
            &&& met(Parameter::CreateTime) == stands(
                of_integer(now - torrent.create_time),
                comparer,
                limit,
            )
            &&& met(Parameter::Download) == stands(
                of_integer(torrent.downloaded as int),
                comparer,
                gib,
            )
            &&& met(Parameter::DownloadSpeed) == (torrent.status == TorrentStatus::Downloading
                && stands(of_integer(torrent.download_speed as int), comparer, kib))
            &&& met(Parameter::DownloadingTime) == stands(
                of_integer(torrent.downloading_time as int),
                comparer,
                limit,
            )
            &&& met(Parameter::LastActivity) == (torrent.last_activity matches Some(seconds)
                && stands(of_integer(seconds as int), comparer, limit))
            &&& met(Parameter::Leecher) == stands(
                of_integer(torrent.leecher as int),
                comparer,
                limit,
            )
            &&& met(Parameter::Progress) == stands(
                torrent.progress,
                comparer,
                limit.quotient(of_integer(100)),
            )
            &&& met(Parameter::Ratio) == stands(torrent.ratio, comparer, limit)
            &&& met(Parameter::Seeder) == stands(of_integer(torrent.seeder as int), comparer, limit)
            &&& met(Parameter::SeedingTime) == stands(
                of_integer(torrent.seeding_time as int),
                comparer,
                limit,
            )
            &&& met(Parameter::Size) == stands(of_integer(torrent.size as int), comparer, gib)
            &&& met(Parameter::Upload) == stands(of_integer(torrent.uploaded as int), comparer, gib)
            &&& met(Parameter::UploadRatio) == (torrent.size > 0 && stands(
                of_integer(torrent.uploaded as int).quotient(of_integer(torrent.size as int)),
                comparer,
                limit,
            ))
            &&& met(Parameter::UploadSpeed) == (at_work && stands(
                of_integer(torrent.upload_speed as int),
                comparer,
                kib,
            ))
        }),
{
}

/// Of two torrents that differ only in that one is loaded and the other seeded, every relation but
/// one to the download speed holds for both or for none.
pub proof fn law_loading_and_seeding_are_judged_alike(
    loading: Torrent,
    seeding: Torrent,
    parameter: Parameter,
    comparer: Comparer,
    value: LiteralView,
    now: i64,
)
    requires
        loading.status == TorrentStatus::Downloading,
        seeding.status == TorrentStatus::Uploading,
        seeding == (Torrent { status: seeding.status, ..loading }),
        parameter != Parameter::DownloadSpeed,
    ensures
        holds((ExpressionView::Relation { parameter, comparer, value }), loading, now) == holds(
            (ExpressionView::Relation { parameter, comparer, value }),
            seeding,
            now,
        ),
{
}

/// A word can only be held against the last activity: it asks that the torrent was never active, and
/// has to be `never` or `none`, whatever the case of its letters.
pub proof fn law_words_ask_for_no_activity(
    parameter: Parameter,
    comparer: Comparer,
    word: Seq<char>,
    torrent: Torrent,
    now: i64,
)
    ensures
        holds(
            (ExpressionView::Relation { parameter, comparer, value: LiteralView::Text(word) }),
            torrent,
            now,
        ) == (parameter == Parameter::LastActivity && torrent.last_activity is None && (lower(word)
            == "never"@ || lower(word) == "none"@)),
{
}

/// Both sides of an `and` have to hold, and one side of an `or`; an expression as a condition removes
/// what it holds for.
pub proof fn law_connectives_join_expressions(
    left: ExpressionView,
    right: ExpressionView,
    expression: Expression,
    torrent: Torrent,
    now: i64,
)
    ensures
        holds(ExpressionView::And(Box::new(left), Box::new(right)), torrent, now) <==> holds(
            left,
            torrent,
            now,
        ) && holds(right, torrent, now),
        holds(ExpressionView::Or(Box::new(left), Box::new(right)), torrent, now) <==> holds(
            left,
            torrent,
            now,
        ) || holds(right, torrent, now),
        meets(ConditionSpec::Remove(expression), torrent, now) == holds(
            expression_view(expression),
            torrent,
            now,
        ),
{
}

} // verus!
