//! Torrents as the removal conditions see them, put together from what qBittorrent reports.

use crate::number::Number;
use crate::text::{copy_texts, same_text, texts};
use vstd::prelude::*;

verus! {

/// What a torrent is doing.
#[derive(Clone, Copy, PartialEq, Eq, Structural, Debug)]
pub enum TorrentStatus {
    Downloading,
    Uploading,
    Checking,
    Queued,
    Paused,
    Stopped,
    Error,
    Unknown,
}

/// A torrent with all that a condition can ask about.
pub struct Torrent {
    pub hash: String,
    pub name: String,
    /// Where the content lies; empty if qBittorrent does not say.
    pub content_path: String,
    pub category: Vec<String>,
    pub tracker: Vec<String>,
    pub status: TorrentStatus,
    pub stalled: bool,
    pub size: u64,
    pub ratio: Number,
    pub uploaded: i64,
    pub downloaded: i64,
    /// When the content was first added, by this torrent or by another that shares it.
    pub create_time: i64,
    pub seeding_time: i64,
    pub downloading_time: i64,
    pub upload_speed: i64,
    pub average_upload_speed: i64,
    pub download_speed: i64,
    pub average_download_speed: i64,
    /// How many seconds ago the torrent was last active; `None` if it never was.
    pub last_activity: Option<u64>,
    pub seeder: i64,
    pub connected_seeder: i64,
    pub leecher: i64,
    pub connected_leecher: i64,
    pub progress: Number,
}

/// What qBittorrent reports about itself.
#[derive(Clone, Copy, PartialEq, Eq, Structural, Debug)]
pub struct ClientStatus {
    pub download_speed: u64,
    pub total_downloaded: u64,
    pub upload_speed: u64,
    pub total_uploaded: u64,
    pub free_space_on_disk: Option<u64>,
}

/// An entry of the list of torrents.
pub struct QbitTorrentSummary {
    pub hash: String,
    pub name: String,
    pub category: String,
    pub state: String,
    pub content_path: String,
    pub size: u64,
    pub ratio: Number,
    pub progress: Number,
    pub last_activity: Option<i64>,
}

/// The properties of a torrent.
#[derive(Clone, Copy, PartialEq, Eq, Structural, Debug)]
pub struct QbitTorrentProperties {
    pub total_uploaded: i64,
    pub total_downloaded: i64,
    pub addition_date: i64,
    pub seeding_time: i64,
    pub downloading_time: i64,
    pub up_speed: i64,
    pub dl_speed: i64,
    pub seeds_total: i64,
    pub seeds: i64,
    pub peers_total: i64,
    pub peers: i64,
    pub up_speed_avg: i64,
    pub dl_speed_avg: i64,
}

/// All that qBittorrent reports about a torrent.
pub struct ListedTorrent {
    pub summary: QbitTorrentSummary,
    pub properties: QbitTorrentProperties,
    /// The addresses of its trackers.
    pub trackers: Vec<String>,
}

/// The status that a state of qBittorrent's stands for.
pub open spec fn status_of(state: Seq<char>) -> TorrentStatus {
    if state == "downloading"@ || state == "stalledDL"@ {
        TorrentStatus::Downloading
    } else if state == "queuedDL"@ || state == "queuedUP"@ {
        TorrentStatus::Queued
    } else if state == "uploading"@ || state == "stalledUP"@ {
        TorrentStatus::Uploading
    } else if state == "checkingUP"@ || state == "checkingDL"@ {
        TorrentStatus::Checking
    } else if state == "pausedUP"@ || state == "pausedDL"@ {
        TorrentStatus::Paused
    } else if state == "error"@ {
        TorrentStatus::Error
    } else {
        TorrentStatus::Unknown
    }
}

/// The status that a state of qBittorrent's stands for.
pub fn map_qbit_status(state: &str) -> (status: TorrentStatus)
    ensures
        status == status_of(state@),
{
    if same_text(state, "downloading") || same_text(state, "stalledDL") {
        TorrentStatus::Downloading
    } else if same_text(state, "queuedDL") || same_text(state, "queuedUP") {
        TorrentStatus::Queued
    } else if same_text(state, "uploading") || same_text(state, "stalledUP") {
        TorrentStatus::Uploading
    } else if same_text(state, "checkingUP") || same_text(state, "checkingDL") {
        TorrentStatus::Checking
    } else if same_text(state, "pausedUP") || same_text(state, "pausedDL") {
        TorrentStatus::Paused
    } else if same_text(state, "error") {
        TorrentStatus::Error
    } else {
        TorrentStatus::Unknown
    }
}

/// Whether two listed torrents belong to one group: those that share their content.
pub open spec fn is_grouped(listed: Seq<ListedTorrent>, at: int, other: int) -> bool {
    at == other || (listed[at].summary.content_path@.len() > 0
        && listed[at].summary.content_path@ == listed[other].summary.content_path@)
}

/// The time is when the first torrent of the group of the one at `at` was added.
pub open spec fn is_group_time(listed: Seq<ListedTorrent>, at: int, time: i64) -> bool {
    &&& exists|k: int|
        0 <= k < listed.len() && is_grouped(listed, at, k)
            && (#[trigger] listed[k]).properties.addition_date == time
    &&& forall|k: int|
        0 <= k < listed.len() && is_grouped(listed, at, k) ==> time <= (
        #[trigger] listed[k]).properties.addition_date
}

/// How many seconds ago something happened that is dated; nothing did if the date is not positive.
pub open spec fn seconds_since(date: Option<i64>, now: u64) -> Option<u64> {
    match date {
        Some(date) => if date <= 0 {
            None
        } else if now >= date {
            Some((now - date) as u64)
        } else {
            Some(0)
        },
        None => None,
    }
}

/// The torrent that a listed one becomes.
pub open spec fn is_built(
    listed: Seq<ListedTorrent>,
    now: u64,
    at: int,
    torrent: Torrent,
) -> bool {
    let summary = listed[at].summary;
    let properties = listed[at].properties;
    &&& torrent.hash@ == summary.hash@
    &&& torrent.name@ == summary.name@
    &&& torrent.content_path@ == summary.content_path@
    &&& texts(torrent.category@) == (if summary.category@.len() == 0 {
        Seq::<Seq<char>>::empty()
    } else {
        seq![summary.category@]
    })
    &&& texts(torrent.tracker@) == texts(listed[at].trackers@)
    &&& torrent.status == status_of(summary.state@)
    &&& torrent.stalled == (summary.state@ == "stalledUP"@ || summary.state@ == "stalledDL"@)
    &&& torrent.size == summary.size
    &&& torrent.ratio == summary.ratio
    &&& torrent.uploaded == properties.total_uploaded
    &&& torrent.downloaded == properties.total_downloaded
    &&& is_group_time(listed, at, torrent.create_time)
    &&& torrent.seeding_time == properties.seeding_time
    &&& torrent.downloading_time == properties.downloading_time
    &&& torrent.upload_speed == properties.up_speed
    &&& torrent.average_upload_speed == properties.up_speed_avg
    &&& torrent.download_speed == properties.dl_speed
    &&& torrent.average_download_speed == properties.dl_speed_avg
    &&& torrent.last_activity == seconds_since(summary.last_activity, now)
    &&& torrent.seeder == properties.seeds_total
    &&& torrent.connected_seeder == properties.seeds
    &&& torrent.leecher == properties.peers_total
    &&& torrent.connected_leecher == properties.peers
    &&& torrent.progress == summary.progress
}

fn group_time(listed: &Vec<ListedTorrent>, at: usize) -> (time: i64)
    requires
        at < listed@.len(),
    ensures
        is_group_time(listed@, at as int, time),
{
    let content_path = &listed[at].summary.content_path;
    let mut time: i64 = listed[at].properties.addition_date;
    let mut k: usize = 0;
    assert(listed@[at as int].properties.addition_date == time);
    while k < listed.len()
        invariant
            k <= listed@.len(),
            at < listed@.len(),
            content_path@ == listed@[at as int].summary.content_path@,
            time <= listed@[at as int].properties.addition_date,
            exists|j: int|
                0 <= j < listed@.len() && is_grouped(listed@, at as int, j) && (
                #[trigger] listed@[j]).properties.addition_date == time,
            forall|j: int|
                0 <= j < k && is_grouped(listed@, at as int, j) ==> time <= (
                #[trigger] listed@[j]).properties.addition_date,
        decreases listed.len() - k,
    {
        let other = &listed[k];
        if !content_path.as_str().is_empty() && *content_path == other.summary.content_path {
            if other.properties.addition_date < time {
                time = other.properties.addition_date;
                assert(listed@[k as int].properties.addition_date == time);
            }
        }
        k = k + 1;
    }
    time
}

fn build_torrent(listed: &Vec<ListedTorrent>, now: u64, at: usize) -> (torrent: Torrent)
    requires
        at < listed@.len(),
    ensures
        is_built(listed@, now, at as int, torrent),
{
    let summary = &listed[at].summary;
    let properties = &listed[at].properties;
    let mut category: Vec<String> = Vec::new();
    if !summary.category.as_str().is_empty() {
        category.push(summary.category.clone());
        assert(texts(category@) =~= seq![summary.category@]);
    } else {
        assert(texts(category@) =~= Seq::<Seq<char>>::empty());
    }
    let last_activity: Option<u64> = match summary.last_activity {
        Some(date) => {
            if date <= 0 {
                None
            } else {
                Some(now.saturating_sub(date as u64))
            }
        },
        None => None,
    };
    Torrent {
        hash: summary.hash.clone(),
        name: summary.name.clone(),
        content_path: summary.content_path.clone(),
        category,
        tracker: copy_texts(&listed[at].trackers),
        status: map_qbit_status(summary.state.as_str()),
        stalled: same_text(summary.state.as_str(), "stalledUP") || same_text(
            summary.state.as_str(),
            "stalledDL",
        ),
        size: summary.size,
        ratio: summary.ratio,
        uploaded: properties.total_uploaded,
        downloaded: properties.total_downloaded,
        create_time: group_time(listed, at),
        seeding_time: properties.seeding_time,
        downloading_time: properties.downloading_time,
        upload_speed: properties.up_speed,
        average_upload_speed: properties.up_speed_avg,
        download_speed: properties.dl_speed,
        average_download_speed: properties.dl_speed_avg,
        last_activity,
        seeder: properties.seeds_total,
        connected_seeder: properties.seeds,
        leecher: properties.peers_total,
        connected_leecher: properties.peers,
        progress: summary.progress,
    }
}

/// The torrents that a list of reports describes, in its order.
pub fn build_torrents(listed: &Vec<ListedTorrent>, now: u64) -> (torrents: Vec<Torrent>)
    ensures
        torrents@.len() == listed@.len(),
        forall|i: int|
            0 <= i < torrents@.len() ==> is_built(listed@, now, i, #[trigger] torrents@[i]),
{
    let mut torrents: Vec<Torrent> = Vec::new();
    let mut at: usize = 0;
    while at < listed.len()
        invariant
            at <= listed@.len(),
            torrents@.len() == at,
            forall|i: int|
                0 <= i < at ==> is_built(listed@, now, i, #[trigger] torrents@[i]),
        decreases listed.len() - at,
    {
        let torrent = build_torrent(listed, now, at);
        torrents.push(torrent);
        at = at + 1;
    }
    torrents
}

/// Torrents that share their content have one creation time; one that shares it with none keeps its
/// own.
pub proof fn law_group_has_one_create_time(
    listed: Seq<ListedTorrent>,
    now: u64,
    left: int,
    right: int,
    left_torrent: Torrent,
    right_torrent: Torrent,
)
    requires
        0 <= left < listed.len(),
        0 <= right < listed.len(),
        is_built(listed, now, left, left_torrent),
        is_built(listed, now, right, right_torrent),
    ensures
        is_grouped(listed, left, right) ==> left_torrent.create_time == right_torrent.create_time,
        left_torrent.create_time <= listed[left].properties.addition_date,
        listed[left].summary.content_path@.len() == 0 ==> left_torrent.create_time
            == listed[left].properties.addition_date,
{
    assert(is_grouped(listed, left, left));
    assert(listed[left].properties.addition_date == listed[left].properties.addition_date);
    if is_grouped(listed, left, right) {
        assert forall|k: int| is_grouped(listed, left, k) == is_grouped(listed, right, k) by {}
        let a = choose|k: int|
            0 <= k < listed.len() && is_grouped(listed, left, k)
                && (#[trigger] listed[k]).properties.addition_date == left_torrent.create_time;
        let b = choose|k: int|
            0 <= k < listed.len() && is_grouped(listed, right, k)
                && (#[trigger] listed[k]).properties.addition_date == right_torrent.create_time;
        assert(is_grouped(listed, right, a));
        assert(is_grouped(listed, left, b));
    }
}

/// The states that qBittorrent tells apart are different words.
pub proof fn lemma_states_differ()
    ensures
        "downloading"@ != "stalledUP"@,
        "queuedDL"@ != "stalledUP"@,
        "queuedUP"@ != "stalledUP"@,
        "stalledDL"@ != "stalledUP"@,
        "queuedDL"@ != "stalledDL"@,
        "queuedUP"@ != "stalledDL"@,
        "uploading"@ != "stalledDL"@,
        "uploading"@ != "downloading"@,
        "uploading"@ != "queuedDL"@,
        "uploading"@ != "queuedUP"@,
        "downloading"@ != "queuedDL"@,
        "downloading"@ != "queuedUP"@,
{
    reveal_strlit("downloading");
    reveal_strlit("uploading");
    reveal_strlit("queuedDL");
    reveal_strlit("queuedUP");
    reveal_strlit("stalledDL");
    reveal_strlit("stalledUP");
    assert("queuedDL"@.len() != "stalledUP"@.len());
    assert("downloading"@.len() != "stalledUP"@.len());
    assert("stalledDL"@[7] != "stalledUP"@[7]);
    assert("uploading"@[0] != "stalledDL"@[0]);
    assert("uploading"@.len() != "downloading"@.len());
    assert("uploading"@.len() != "queuedDL"@.len());
    assert("downloading"@.len() != "queuedDL"@.len());
}

/// A torrent is loaded, seeded, queued, checked, paused or in trouble if and only if qBittorrent
/// lists it in a state that says so, and stalled ones are loaded or seeded; in any other state its
/// status is unknown.
pub proof fn law_states_have_one_status(
    listed: Seq<ListedTorrent>,
    now: u64,
    at: int,
    torrent: Torrent,
)
    requires
        0 <= at < listed.len(),
        is_built(listed, now, at, torrent),
    ensures
        ({
            let state = listed[at].summary.state@;
            &&& torrent.status == TorrentStatus::Downloading <==> state == "downloading"@ || state
                == "stalledDL"@
            &&& torrent.status == TorrentStatus::Uploading <==> state == "uploading"@ || state
                == "stalledUP"@
            &&& torrent.status == TorrentStatus::Queued <==> state == "queuedDL"@ || state
                == "queuedUP"@
            &&& torrent.status == TorrentStatus::Checking <==> state == "checkingDL"@ || state
                == "checkingUP"@
            &&& torrent.status == TorrentStatus::Paused <==> state == "pausedDL"@ || state
                == "pausedUP"@
            &&& torrent.status == TorrentStatus::Error <==> state == "error"@
            &&& torrent.status != TorrentStatus::Stopped
            &&& torrent.stalled <==> state == "stalledDL"@ || state == "stalledUP"@
        }),
{
    lemma_states_differ();
    reveal_strlit("downloading");
    reveal_strlit("uploading");
    reveal_strlit("queuedDL");
    reveal_strlit("queuedUP");
    reveal_strlit("stalledDL");
    reveal_strlit("stalledUP");
    reveal_strlit("checkingDL");
    reveal_strlit("checkingUP");
    reveal_strlit("pausedDL");
    reveal_strlit("pausedUP");
    reveal_strlit("error");
    assert("checkingDL"@.len() == 10 && "checkingUP"@.len() == 10);
    assert("pausedDL"@.len() == 8 && "pausedUP"@.len() == 8);
    assert("pausedDL"@[0] != "queuedDL"@[0]);
    assert("pausedUP"@[0] != "queuedDL"@[0]);
    assert("pausedDL"@[0] != "queuedUP"@[0]);
    assert("pausedUP"@[0] != "queuedUP"@[0]);
    assert("error"@.len() == 5);
}

/// A torrent is made of what qBittorrent reports of it alone, but for the creation time, which is the
/// earliest of all torrents that share its content.
pub proof fn law_torrents_keep_what_is_reported(
    listed: Seq<ListedTorrent>,
    now: u64,
    at: int,
    torrent: Torrent,
)
    requires
        0 <= at < listed.len(),
        is_built(listed, now, at, torrent),
    ensures
        torrent.hash@ == listed[at].summary.hash@,
        torrent.name@ == listed[at].summary.name@,
        torrent.content_path@ == listed[at].summary.content_path@,
        torrent.category@.len() == (if listed[at].summary.category@ == Seq::<char>::empty() {
            0nat
        } else {
            1
        }),
        torrent.category@.len() == 1 ==> torrent.category@[0]@ == listed[at].summary.category@,
        torrent.tracker@.len() == listed[at].trackers@.len(),
        forall|i: int|
            0 <= i < torrent.tracker@.len() ==> (#[trigger] torrent.tracker@[i])@
                == listed[at].trackers@[i]@,
        torrent.size == listed[at].summary.size,
        torrent.ratio == listed[at].summary.ratio,
        torrent.progress == listed[at].summary.progress,
        torrent.uploaded == listed[at].properties.total_uploaded,
        torrent.downloaded == listed[at].properties.total_downloaded,
        torrent.seeding_time == listed[at].properties.seeding_time,
        torrent.downloading_time == listed[at].properties.downloading_time,
        torrent.upload_speed == listed[at].properties.up_speed,
        torrent.download_speed == listed[at].properties.dl_speed,
        torrent.average_upload_speed == listed[at].properties.up_speed_avg,
        torrent.average_download_speed == listed[at].properties.dl_speed_avg,
        torrent.seeder == listed[at].properties.seeds_total,
        torrent.connected_seeder == listed[at].properties.seeds,
        torrent.leecher == listed[at].properties.peers_total,
        torrent.connected_leecher == listed[at].properties.peers,
        torrent.last_activity is Some <==> (listed[at].summary.last_activity matches Some(date)
            && date > 0),
        torrent.last_activity matches Some(seconds) ==> {
            let date = listed[at].summary.last_activity->0;
            &&& date <= now ==> date + seconds == now
            &&& date > now ==> seconds == 0
        },
        forall|k: int|
            0 <= k < listed.len() && (k == at || (listed[k].summary.content_path@
                == listed[at].summary.content_path@ && listed[at].summary.content_path@
                != Seq::<char>::empty())) ==> torrent.create_time <= (
            #[trigger] listed[k]).properties.addition_date,
        exists|k: int|
            0 <= k < listed.len() && (k == at || (listed[k].summary.content_path@
                == listed[at].summary.content_path@ && listed[at].summary.content_path@
                != Seq::<char>::empty())) && torrent.create_time == (
            #[trigger] listed[k]).properties.addition_date,
{
    let summary = listed[at].summary;
    assert(texts(torrent.category@).len() == torrent.category@.len());
    if torrent.category@.len() == 1 {
        assert(texts(torrent.category@)[0] == torrent.category@[0]@);
    }
    if summary.category@.len() == 0 {
        assert(summary.category@ =~= Seq::<char>::empty());
    }
    assert(texts(torrent.tracker@).len() == texts(listed[at].trackers@).len());
    assert forall|i: int| 0 <= i < torrent.tracker@.len() implies (#[trigger] torrent.tracker@[i])@
        == listed[at].trackers@[i]@ by {
        assert(texts(torrent.tracker@)[i] == texts(listed[at].trackers@)[i]);
    }
    assert forall|k: int|
        0 <= k < listed.len() && (k == at || (listed[k].summary.content_path@
            == listed[at].summary.content_path@ && listed[at].summary.content_path@
            != Seq::<char>::empty())) implies torrent.create_time <= (
    #[trigger] listed[k]).properties.addition_date by {
        if listed[at].summary.content_path@.len() == 0 {
            assert(listed[at].summary.content_path@ =~= Seq::<char>::empty());
        }
        assert(is_grouped(listed, at, k));
    }
    let k = choose|k: int|
        0 <= k < listed.len() && is_grouped(listed, at, k)
            && (#[trigger] listed[k]).properties.addition_date == torrent.create_time;
    assert(torrent.create_time == listed[k].properties.addition_date);
}

} // verus!
