//! The filters of a strategy: which torrents its conditions look at.

use crate::address::{parse_url, url_parts, UrlParts, UrlView};
use crate::text::{lists, texts};
use crate::torrent::{is_built, lemma_states_differ, ListedTorrent, Torrent, TorrentStatus};
use vstd::prelude::*;

verus! {

/// Which statuses a filter names.
pub struct StatusSelector {
    pub statuses: Vec<TorrentStatus>,
    pub stalled_upload: bool,
    pub stalled_download: bool,
}

/// The filters of a strategy.
pub struct FilterConfig {
    pub all_categories: bool,
    pub categories: Vec<String>,
    pub excluded_categories: Vec<String>,
    pub all_trackers: bool,
    pub trackers: Vec<String>,
    pub excluded_trackers: Vec<String>,
    pub all_status: bool,
    pub status: StatusSelector,
    pub excluded_status: StatusSelector,
}

/// Whether any of a torrent's categories is named.
pub open spec fn in_categories(torrent: Torrent, named: Seq<String>) -> bool {
    exists|i: int|
        0 <= i < torrent.category@.len() && texts(named).contains(
            #[trigger] texts(torrent.category@)[i],
        )
}

/// Whether the categories of a torrent are wanted.
pub open spec fn category_wanted(filters: FilterConfig, torrent: Torrent) -> bool {
    (filters.all_categories || in_categories(torrent, filters.categories@)) && !in_categories(
        torrent,
        filters.excluded_categories@,
    )
}

/// Whether a tracker is named, by its address or by the host in it.
pub open spec fn is_tracker_named(
    tracker: Seq<char>,
    parts: Option<UrlView>,
    named: Seq<String>,
) -> bool {
    texts(named).contains(tracker) || match parts {
        Some(parts) => parts.host is Some && texts(named).contains(parts.host->0),
        None => false,
    }
}

/// Whether any of a torrent's trackers is named.
pub open spec fn in_trackers(torrent: Torrent, named: Seq<String>) -> bool {
    exists|i: int|
        0 <= i < torrent.tracker@.len() && is_tracker_named(
            #[trigger] texts(torrent.tracker@)[i],
            url_parts(texts(torrent.tracker@)[i]),
            named,
        )
}

/// Whether the trackers of a torrent are wanted.
pub open spec fn tracker_wanted(filters: FilterConfig, torrent: Torrent) -> bool {
    (filters.all_trackers || in_trackers(torrent, filters.trackers@)) && !in_trackers(
        torrent,
        filters.excluded_trackers@,
    )
}

/// Whether a selector names the status of a torrent.
pub open spec fn in_statuses(selector: StatusSelector, torrent: Torrent) -> bool {
    ||| selector.statuses@.contains(torrent.status)
    ||| selector.stalled_upload && torrent.status == TorrentStatus::Uploading && torrent.stalled
    ||| selector.stalled_download && torrent.status == TorrentStatus::Downloading
        && torrent.stalled
}

/// Whether the status of a torrent is wanted.
pub open spec fn status_wanted(filters: FilterConfig, torrent: Torrent) -> bool {
    (filters.all_status || in_statuses(filters.status, torrent)) && !in_statuses(
        filters.excluded_status,
        torrent,
    )
}

/// Whether a torrent passes the filters.
pub open spec fn is_wanted(filters: FilterConfig, torrent: Torrent) -> bool {
    category_wanted(filters, torrent) && tracker_wanted(filters, torrent) && status_wanted(
        filters,
        torrent,
    )
}

/// The torrents among the first `count` that pass the filters.
pub open spec fn wanted<'a>(
    filters: FilterConfig,
    torrents: &'a Vec<Torrent>,
    count: nat,
) -> Seq<&'a Torrent>
    decreases count,
{
    if count == 0 {
        Seq::empty()
    } else {
        let before = wanted(filters, torrents, (count - 1) as nat);
        if is_wanted(filters, torrents@[count - 1]) {
            before.push(&torrents@[count - 1])
        } else {
            before
        }
    }
}

fn any_category(torrent: &Torrent, named: &Vec<String>) -> (any: bool)
    ensures
        any == in_categories(*torrent, named@),
{
    let mut i: usize = 0;
    while i < torrent.category.len()
        invariant
            i <= torrent.category@.len(),
            forall|j: int|
                0 <= j < i ==> !texts(named@).contains(#[trigger] texts(torrent.category@)[j]),
        decreases torrent.category.len() - i,
    {
        assert(texts(torrent.category@)[i as int] == torrent.category@[i as int]@);
        if lists(named, torrent.category[i].as_str()) {
            return true;
        }
        i = i + 1;
    }
    false
}

/// Whether the categories of a torrent are wanted.
pub fn category_matches(filters: &FilterConfig, torrent: &Torrent) -> (matches: bool)
    ensures
        matches == category_wanted(*filters, *torrent),
{
    (filters.all_categories || any_category(torrent, &filters.categories)) && !any_category(
        torrent,
        &filters.excluded_categories,
    )
}

/// Whether a tracker is named, by its address or by the host among the parts of the address.
pub fn tracker_named(tracker: &str, parts: &Option<UrlParts>, selected: &Vec<String>) -> (named:
    bool)
    ensures
        named == is_tracker_named(
            tracker@,
            match *parts {
                Some(parts) => Some(parts@),
                None => None,
            },
            selected@,
        ),
{
    if lists(selected, tracker) {
        return true;
    }
    match parts {
        None => false,
        Some(parts) => match &parts.host {
            None => false,
            Some(host) => lists(selected, host.as_str()),
        },
    }
}

/// Whether a tracker is named, by its address or by the host in it.
pub fn tracker_selected(tracker: &str, selected: &Vec<String>) -> (named: bool)
    ensures
        named == is_tracker_named(tracker@, url_parts(tracker@), selected@),
{
    tracker_named(tracker, &parse_url(tracker), selected)
}

fn any_tracker(torrent: &Torrent, named: &Vec<String>) -> (any: bool)
    ensures
        any == in_trackers(*torrent, named@),
{
    let mut i: usize = 0;
    while i < torrent.tracker.len()
        invariant
            i <= torrent.tracker@.len(),
            forall|j: int|
                0 <= j < i ==> !is_tracker_named(
                    #[trigger] texts(torrent.tracker@)[j],
                    url_parts(texts(torrent.tracker@)[j]),
                    named@,
                ),
        decreases torrent.tracker.len() - i,
    {
        assert(texts(torrent.tracker@)[i as int] == torrent.tracker@[i as int]@);
        if tracker_selected(torrent.tracker[i].as_str(), named) {
            return true;
        }
        i = i + 1;
    }
    false
}

/// Whether the trackers of a torrent are wanted.
pub fn tracker_matches(filters: &FilterConfig, torrent: &Torrent) -> (matches: bool)
    ensures
        matches == tracker_wanted(*filters, *torrent),
{
    (filters.all_trackers || any_tracker(torrent, &filters.trackers)) && !any_tracker(
        torrent,
        &filters.excluded_trackers,
    )
}

/// Whether a selector names the status of a torrent.
pub fn matches_status_selector(selector: &StatusSelector, torrent: &Torrent) -> (matches: bool)
    ensures
        matches == in_statuses(*selector, *torrent),
{
    let mut i: usize = 0;
    while i < selector.statuses.len()
        invariant
            i <= selector.statuses@.len(),
            forall|j: int| 0 <= j < i ==> #[trigger] selector.statuses@[j] != torrent.status,
        decreases selector.statuses.len() - i,
    {
        if selector.statuses[i] == torrent.status {
            assert(selector.statuses@.contains(torrent.status));
            return true;
        }
        i = i + 1;
    }
    (selector.stalled_upload && torrent.status == TorrentStatus::Uploading && torrent.stalled) || (
    selector.stalled_download && torrent.status == TorrentStatus::Downloading && torrent.stalled)
}

/// Whether the status of a torrent is wanted.
pub fn status_matches(filters: &FilterConfig, torrent: &Torrent) -> (matches: bool)
    ensures
        matches == status_wanted(*filters, *torrent),
{
    (filters.all_status || matches_status_selector(&filters.status, torrent))
        && !matches_status_selector(&filters.excluded_status, torrent)
}

/// The torrents that pass the filters, in their order.
pub fn apply_filters<'a>(filters: &FilterConfig, torrents: &'a Vec<Torrent>) -> (passed: Vec<
    &'a Torrent,
>)
    ensures
        passed@ == wanted(*filters, torrents, torrents@.len()),
{
    let mut passed: Vec<&'a Torrent> = Vec::new();
    let mut i: usize = 0;
    while i < torrents.len()
        invariant
            i <= torrents@.len(),
            passed@ == wanted(*filters, torrents, i as nat),
        decreases torrents.len() - i,
    {
        let torrent = &torrents[i];
        if category_matches(filters, torrent) && tracker_matches(filters, torrent)
            && status_matches(filters, torrent) {
            passed.push(torrent);
        }
        i = i + 1;
    }
    passed
}

/// A selector of stalled seeds, and of nothing else, names those torrents that qBittorrent lists as
/// `stalledUP`; one of stalled downloads those that it lists as `stalledDL`.
pub proof fn law_stalled_torrents_are_told_apart(
    selector: StatusSelector,
    listed: Seq<ListedTorrent>,
    now: u64,
    at: int,
    torrent: Torrent,
)
    requires
        0 <= at < listed.len(),
        is_built(listed, now, at, torrent),
        selector.statuses@.len() == 0,
    ensures
        in_statuses(selector, torrent) <==> (selector.stalled_upload && listed[at].summary.state@
            == "stalledUP"@) || (selector.stalled_download && listed[at].summary.state@
            == "stalledDL"@),
{
    lemma_states_differ();
}

/// A selector of statuses, without stalled ones, names those torrents whose status it lists; whether
/// they are stalled is all one.
pub proof fn law_statuses_are_told_apart(selector: StatusSelector, torrent: Torrent)
    requires
        !selector.stalled_upload,
        !selector.stalled_download,
    ensures
        in_statuses(selector, torrent) <==> exists|i: int|
            0 <= i < selector.statuses@.len() && #[trigger] selector.statuses@[i]
                == torrent.status,
{
    if in_statuses(selector, torrent) {
        assert(selector.statuses@.contains(torrent.status));
    }
}

/// A selector names what any part of it names.
pub proof fn law_selectors_add_up(
    selector: StatusSelector,
    statuses: StatusSelector,
    stalled: StatusSelector,
    torrent: Torrent,
)
    requires
        statuses.statuses == selector.statuses,
        !statuses.stalled_upload,
        !statuses.stalled_download,
        stalled.statuses@.len() == 0,
        stalled.stalled_upload == selector.stalled_upload,
        stalled.stalled_download == selector.stalled_download,
    ensures
        in_statuses(selector, torrent) <==> in_statuses(statuses, torrent) || in_statuses(
            stalled,
            torrent,
        ),
{
}

/// A torrent passes the filters if each of category, tracker and status is selected, by name or
/// because all are, and is not excluded.
pub proof fn law_filters_select_and_exclude(filters: FilterConfig, torrent: Torrent)
    ensures
        is_wanted(filters, torrent) <==> {
            &&& filters.all_categories || exists|i: int, j: int|
                0 <= i < torrent.category@.len() && 0 <= j < filters.categories@.len() && (
                #[trigger] torrent.category@[i])@ == (#[trigger] filters.categories@[j])@
            &&& forall|i: int, j: int|
                0 <= i < torrent.category@.len() && 0 <= j < filters.excluded_categories@.len()
                    ==> (#[trigger] torrent.category@[i])@ != (
                #[trigger] filters.excluded_categories@[j])@
            &&& filters.all_trackers || exists|i: int, j: int|
                0 <= i < torrent.tracker@.len() && 0 <= j < filters.trackers@.len()
                    && is_address_or_host(
                    (#[trigger] torrent.tracker@[i])@,
                    (#[trigger] filters.trackers@[j])@,
                )
            &&& forall|i: int, j: int|
                0 <= i < torrent.tracker@.len() && 0 <= j < filters.excluded_trackers@.len()
                    ==> !is_address_or_host(
                    (#[trigger] torrent.tracker@[i])@,
                    (#[trigger] filters.excluded_trackers@[j])@,
                )
            &&& filters.all_status || in_statuses(filters.status, torrent)
            &&& !in_statuses(filters.excluded_status, torrent)
        },
{
    lemma_categories(torrent, filters.categories@);
    lemma_categories(torrent, filters.excluded_categories@);
    lemma_trackers(torrent, filters.trackers@);
    lemma_trackers(torrent, filters.excluded_trackers@);
}

/// Whether a name is that of a tracker: its address, or the host in the address.
pub open spec fn is_address_or_host(tracker: Seq<char>, name: Seq<char>) -> bool {
    name == tracker || (url_parts(tracker) matches Some(parts) && parts.host == Some(name))
}

proof fn lemma_categories(torrent: Torrent, named: Seq<String>)
    ensures
        in_categories(torrent, named) <==> exists|i: int, j: int|
            0 <= i < torrent.category@.len() && 0 <= j < named.len() && (
            #[trigger] torrent.category@[i])@ == (#[trigger] named[j])@,
{
    if in_categories(torrent, named) {
        let i = choose|i: int|
            0 <= i < torrent.category@.len() && texts(named).contains(
                #[trigger] texts(torrent.category@)[i],
            );
        let j = choose|j: int|
            0 <= j < texts(named).len() && texts(named)[j] == texts(torrent.category@)[i];
        assert(torrent.category@[i]@ == named[j]@);
    }
    if exists|i: int, j: int|
        0 <= i < torrent.category@.len() && 0 <= j < named.len() && (
        #[trigger] torrent.category@[i])@ == (#[trigger] named[j])@ {
        let (i, j) = choose|i: int, j: int|
            0 <= i < torrent.category@.len() && 0 <= j < named.len() && (
            #[trigger] torrent.category@[i])@ == (#[trigger] named[j])@;
        assert(texts(named)[j] == texts(torrent.category@)[i]);
    }
}

proof fn lemma_tracker(tracker: Seq<char>, named: Seq<String>)
    ensures
        is_tracker_named(tracker, url_parts(tracker), named) <==> exists|j: int|
            0 <= j < named.len() && is_address_or_host(tracker, (#[trigger] named[j])@),
{
    if is_tracker_named(tracker, url_parts(tracker), named) {
        if texts(named).contains(tracker) {
            let j = choose|j: int| 0 <= j < texts(named).len() && texts(named)[j] == tracker;
            assert(is_address_or_host(tracker, named[j]@));
        } else {
            let host = url_parts(tracker)->0.host->0;
            let j = choose|j: int| 0 <= j < texts(named).len() && texts(named)[j] == host;
            assert(is_address_or_host(tracker, named[j]@));
        }
    }
    if exists|j: int| 0 <= j < named.len() && is_address_or_host(tracker, (#[trigger] named[j])@) {
        let j = choose|j: int|
            0 <= j < named.len() && is_address_or_host(tracker, (#[trigger] named[j])@);
        assert(texts(named)[j] == named[j]@);
    }
}

proof fn lemma_trackers(torrent: Torrent, named: Seq<String>)
    ensures
        in_trackers(torrent, named) <==> exists|i: int, j: int|
            0 <= i < torrent.tracker@.len() && 0 <= j < named.len() && is_address_or_host(
                (#[trigger] torrent.tracker@[i])@,
                (#[trigger] named[j])@,
            ),
{
    if in_trackers(torrent, named) {
        let i = choose|i: int|
            0 <= i < torrent.tracker@.len() && is_tracker_named(
                #[trigger] texts(torrent.tracker@)[i],
                url_parts(texts(torrent.tracker@)[i]),
                named,
            );
        lemma_tracker(torrent.tracker@[i]@, named);
        let j = choose|j: int|
            0 <= j < named.len() && is_address_or_host(
                torrent.tracker@[i]@,
                (#[trigger] named[j])@,
            );
        assert(is_address_or_host(torrent.tracker@[i]@, named[j]@));
    }
    if exists|i: int, j: int|
        0 <= i < torrent.tracker@.len() && 0 <= j < named.len() && is_address_or_host(
            (#[trigger] torrent.tracker@[i])@,
            (#[trigger] named[j])@,
        ) {
        let (i, j) = choose|i: int, j: int|
            0 <= i < torrent.tracker@.len() && 0 <= j < named.len() && is_address_or_host(
                (#[trigger] torrent.tracker@[i])@,
                (#[trigger] named[j])@,
            );
        lemma_tracker(torrent.tracker@[i]@, named);
        assert(texts(torrent.tracker@)[i] == torrent.tracker@[i]@);
    }
}

/// Of a list, those torrents are kept that pass the filters, in their order: adding a torrent to the
/// list adds it to what is kept if it passes, and changes nothing else.
pub proof fn law_filters_look_at_each_torrent(
    filters: FilterConfig,
    torrents: &Vec<Torrent>,
    longer: &Vec<Torrent>,
)
    requires
        longer@.len() == torrents@.len() + 1,
        longer@.drop_last() == torrents@,
    ensures
        torrents@.len() == 0 ==> wanted(filters, torrents, torrents@.len()).len() == 0,
        wanted(filters, longer, longer@.len()) == (if is_wanted(filters, longer@.last()) {
            wanted(filters, torrents, torrents@.len()).push(&longer@.last())
        } else {
            wanted(filters, torrents, torrents@.len())
        }),
{
    lemma_wanted_of_front(filters, torrents, longer, torrents@.len());
}

proof fn lemma_wanted_of_front(
    filters: FilterConfig,
    torrents: &Vec<Torrent>,
    longer: &Vec<Torrent>,
    count: nat,
)
    requires
        count <= torrents@.len() < longer@.len(),
        longer@.take(torrents@.len() as int) == torrents@,
    ensures
        wanted(filters, longer, count) == wanted(filters, torrents, count),
    decreases count,
{
    if count > 0 {
        lemma_wanted_of_front(filters, torrents, longer, (count - 1) as nat);
        assert(longer@.take(torrents@.len() as int)[count - 1] == longer@[count - 1]);
    }
}

} // verus!
