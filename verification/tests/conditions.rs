use qb_tools::condition::{
    apply_condition, apply_free_space, apply_maximum_number, apply_seed_size, gib_to_bytes,
    kib_to_bytes, matches_last_activity, sort_torrents, ConditionError, ConditionSpec, Division,
    LastActivityValue, SortAction,
};
use qb_tools::expression::parse_expression;
use qb_tools::filter::{
    apply_filters, tracker_named, tracker_selected, FilterConfig, StatusSelector,
};
use qb_tools::number::Number;
use qb_tools::torrent::{
    build_torrents, map_qbit_status, ClientStatus, ListedTorrent, QbitTorrentProperties,
    QbitTorrentSummary, Torrent, TorrentStatus,
};

fn num(value: f64) -> Number {
    Number { bits: value.to_bits() }
}

fn torrent(name: &str) -> Torrent {
    Torrent {
        hash: format!("hash-{name}"),
        name: name.to_string(),
        content_path: String::new(),
        category: vec![],
        tracker: vec![],
        status: TorrentStatus::Uploading,
        stalled: false,
        size: 100,
        ratio: num(1.0),
        uploaded: 100,
        downloaded: 100,
        create_time: 100,
        seeding_time: 100,
        downloading_time: 100,
        upload_speed: 100,
        average_upload_speed: 100,
        download_speed: 100,
        average_download_speed: 100,
        last_activity: Some(100),
        seeder: 10,
        connected_seeder: 5,
        leecher: 5,
        connected_leecher: 3,
        progress: num(1.0),
    }
}

fn status(free_space_on_disk: Option<u64>) -> ClientStatus {
    ClientStatus {
        download_speed: 0,
        total_downloaded: 0,
        upload_speed: 0,
        total_uploaded: 0,
        free_space_on_disk,
    }
}

fn no_status() -> StatusSelector {
    StatusSelector {
        statuses: vec![],
        stalled_upload: false,
        stalled_download: false,
    }
}

fn all() -> FilterConfig {
    FilterConfig {
        all_categories: true,
        categories: vec![],
        excluded_categories: vec![],
        all_trackers: true,
        trackers: vec![],
        excluded_trackers: vec![],
        all_status: true,
        status: no_status(),
        excluded_status: no_status(),
    }
}

fn names(list: &[&Torrent]) -> Vec<String> {
    list.iter().map(|torrent| torrent.name.clone()).collect()
}

#[test]
fn excluded_only_filters_default_to_all() {
    let mut filters = FilterConfig {
        excluded_categories: vec!["skip".to_string()],
        all_categories: true,
        all_trackers: true,
        all_status: true,
        ..all()
    };
    let mut keep = torrent("keep");
    keep.category = vec!["keep".to_string()];
    let mut skip = torrent("skip");
    skip.category = vec!["skip".to_string()];

    let torrents = vec![keep, skip];
    let filtered = apply_filters(&filters, &torrents);
    assert_eq!(filtered.len(), 1);
    assert_eq!(filtered[0].name, torrents[0].name);

    filters.all_categories = false;
    let filtered = apply_filters(&filters, &torrents);
    assert!(filtered.is_empty());
}

#[test]
fn remove_old_seeds_sorts_negative_create_time_first() {
    let mut unknown = torrent("unknown");
    unknown.create_time = -1;
    let mut known = torrent("known");
    known.create_time = 10;

    let division = apply_maximum_number(&vec![&known, &unknown], 1, SortAction::RemoveOldSeeds);

    assert_eq!(division.remove.len(), 1);
    assert_eq!(division.remove[0].name, unknown.name);
}

#[test]
fn seed_size_remove_big_seeds_keeps_smallest_first() {
    let mut small = torrent("small");
    small.size = 100;
    let mut medium = torrent("medium");
    medium.size = 200;
    let mut big = torrent("big");
    big.size = 400;

    let Division { remain, remove } = apply_seed_size(
        &vec![&small, &medium, &big],
        num(0.0000003),
        SortAction::RemoveBigSeeds,
    );

    assert_eq!(remain.len(), 2);
    assert_eq!(remove.len(), 1);
    assert_eq!(remove[0].name, big.name);
    assert_eq!(remain[0].name, small.name);
    assert_eq!(remain[1].name, medium.name);
}

#[test]
fn maximum_number_remove_old_seeds_removes_oldest_first() {
    let mut oldest = torrent("oldest");
    oldest.create_time = 10;
    let mut middle = torrent("middle");
    middle.create_time = 20;
    let mut newest = torrent("newest");
    newest.create_time = 30;

    let Division { remain, remove } =
        apply_maximum_number(&vec![&middle, &newest, &oldest], 2, SortAction::RemoveOldSeeds);

    assert_eq!(remove.len(), 1);
    assert_eq!(remove[0].name, oldest.name);
    assert_eq!(remain.len(), 2);
}

#[test]
fn maximum_number_may_be_none_or_more_than_there_are() {
    let mut a = torrent("a");
    a.size = 2;
    let mut b = torrent("b");
    b.size = 1;
    let list = vec![&a, &b];
    let division = apply_maximum_number(&list, 0, SortAction::RemoveSmallSeeds);
    assert!(division.remain.is_empty());
    assert_eq!(names(&division.remove), vec!["b", "a"]);
    let division = apply_maximum_number(&list, 5, SortAction::RemoveSmallSeeds);
    assert!(division.remove.is_empty());
    assert_eq!(names(&division.remain), vec!["b", "a"]);
}

#[test]
fn actions_sort_and_keep_the_order_of_equals() {
    let mut a = torrent("a");
    a.create_time = 1;
    a.size = 30;
    a.last_activity = Some(5);
    a.upload_speed = 7;
    let mut b = torrent("b");
    b.create_time = 3;
    b.size = 10;
    b.last_activity = None;
    b.upload_speed = -1;
    let mut c = torrent("c");
    c.create_time = 2;
    c.size = 30;
    c.last_activity = Some(0);
    c.upload_speed = 7;
    let list = vec![&a, &b, &c];
    for (action, order) in [
        (SortAction::RemoveOldSeeds, "acb"),
        (SortAction::RemoveNewSeeds, "bca"),
        (SortAction::RemoveBigSeeds, "acb"),
        (SortAction::RemoveSmallSeeds, "bac"),
        (SortAction::RemoveActiveSeeds, "cab"),
        (SortAction::RemoveInactiveSeeds, "abc"),
        (SortAction::RemoveFastUploadSeeds, "acb"),
        (SortAction::RemoveSlowUploadSeeds, "bac"),
    ] {
        assert_eq!(names(&sort_torrents(&list, action)).concat(), order, "{action:?}");
    }
}

#[test]
fn free_space_removes_until_there_is_enough() {
    let gib = 1_073_741_824;
    let mut a = torrent("a");
    a.size = gib;
    let mut b = torrent("b");
    b.size = 2 * gib;
    let mut c = torrent("c");
    c.size = 3 * gib;
    let list = vec![&a, &b, &c];
    let division = apply_free_space(&list, gib, num(4.0), SortAction::RemoveSmallSeeds);
    assert_eq!(names(&division.remove), vec!["a", "b"]);
    assert_eq!(names(&division.remain), vec!["c"]);
    let division = apply_free_space(&list, 4 * gib, num(4.0), SortAction::RemoveSmallSeeds);
    assert!(division.remove.is_empty());
    let division = apply_free_space(&list, 0, num(100.0), SortAction::RemoveSmallSeeds);
    assert!(division.remain.is_empty());
}

fn divided<'a>(
    condition: &ConditionSpec,
    list: Vec<&'a Torrent>,
    available: Option<u64>,
    remote: Option<u64>,
) -> Result<(Vec<String>, Vec<String>), ConditionError> {
    apply_condition(condition, &status(remote), available, list, 1_000)
        .map(|division| (names(&division.remain), names(&division.remove)))
}

#[test]
fn conditions_divide_torrents() {
    let mut low = torrent("low");
    low.ratio = num(0.5);
    low.progress = num(0.25);
    let mut high = torrent("high");
    high.ratio = num(2.0);
    high.create_time = -500;
    high.status = TorrentStatus::Downloading;
    high.upload_speed = 5000;
    high.download_speed = 5000;
    high.average_download_speed = 5000;
    high.average_upload_speed = 5000;
    high.seeding_time = 500;
    high.downloading_time = 500;
    high.size = 3_221_225_472;
    high.uploaded = 6_442_450_944;
    high.downloaded = 2_147_483_648;
    high.seeder = 99;
    high.leecher = 99;
    high.connected_seeder = 99;
    high.connected_leecher = 99;
    high.last_activity = Some(999);
    for condition in [
        ConditionSpec::Ratio(num(1.0)),
        ConditionSpec::CreateTime(num(1000.0)),
        ConditionSpec::DownloadingTime(num(100.0)),
        ConditionSpec::SeedingTime(num(100.0)),
        ConditionSpec::MaxDownload(num(1.5)),
        ConditionSpec::MaxDownloadSpeed(num(2.0)),
        ConditionSpec::MaxAverageDownloadSpeed(num(2.0)),
        ConditionSpec::MaxSize(num(2.5)),
        ConditionSpec::MaxSeeder(num(10.0)),
        ConditionSpec::MaxUpload(num(5.0)),
        ConditionSpec::MaxConnectedSeeder(num(5.0)),
        ConditionSpec::LastActivity(LastActivityValue::Seconds(num(100.0))),
        ConditionSpec::MaxProgress(num(25.0)),
        ConditionSpec::UploadRatio(num(1.5)),
    ] {
        assert_eq!(
            divided(&condition, vec![&low, &high], None, None),
            Ok((vec!["low".to_string()], vec!["high".to_string()]))
        );
    }
    for condition in [
        ConditionSpec::MinUploadSpeed(num(1.0)),
        ConditionSpec::MinAverageUploadSpeed(num(1.0)),
        ConditionSpec::MinLeecher(num(6.0)),
        ConditionSpec::MinConnectedLeecher(num(4.0)),
    ] {
        assert_eq!(
            divided(&condition, vec![&high, &low], None, None),
            Ok((vec!["high".to_string()], vec!["low".to_string()]))
        );
    }
    let expression = match parse_expression("ratio > 1 and size > 1") {
        Ok(expression) => expression,
        Err(_) => panic!("expression parses"),
    };
    assert_eq!(
        divided(&ConditionSpec::Remove(expression), vec![&low, &high], None, None),
        Ok((vec!["low".to_string()], vec!["high".to_string()]))
    );
    assert_eq!(
        divided(&ConditionSpec::Nothing, vec![&low, &high], None, None),
        Ok((vec!["low".to_string(), "high".to_string()], vec![]))
    );
    assert_eq!(
        divided(
            &ConditionSpec::SeedSize { limit_gib: num(1.0), action: SortAction::RemoveBigSeeds },
            vec![&low, &high],
            None,
            None
        ),
        Ok((vec!["low".to_string()], vec!["high".to_string()]))
    );
    assert_eq!(
        divided(
            &ConditionSpec::MaximumNumber { limit: 1, action: SortAction::RemoveBigSeeds },
            vec![&low, &high],
            None,
            None
        ),
        Ok((vec!["low".to_string()], vec!["high".to_string()]))
    );
}

#[test]
fn conditions_on_space_need_to_know_it() {
    let a = torrent("a");
    let local = ConditionSpec::FreeSpace {
        min_gib: num(1.0),
        path: "/ssd".to_string(),
        action: SortAction::RemoveBigSeeds,
    };
    let remote = ConditionSpec::RemoteFreeSpace {
        min_gib: num(1.0),
        path: "/ignored".to_string(),
        action: SortAction::RemoveBigSeeds,
    };
    assert_eq!(
        divided(&local, vec![&a], None, Some(1)),
        Err(ConditionError::FilesystemUnknown)
    );
    assert_eq!(
        divided(&remote, vec![&a], Some(1), None),
        Err(ConditionError::RemoteUnknown)
    );
    assert_eq!(
        divided(&local, vec![&a], Some(1), None),
        Ok((vec![], vec!["a".to_string()]))
    );
    assert_eq!(
        divided(&remote, vec![&a], None, Some(1_073_741_824)),
        Ok((vec!["a".to_string()], vec![]))
    );
}

#[test]
fn units_are_binary() {
    assert_eq!(f64::from_bits(gib_to_bytes(num(1.5)).bits), 1_610_612_736.0);
    assert_eq!(f64::from_bits(kib_to_bytes(num(1.5)).bits), 1536.0);
}

#[test]
fn last_activity_is_held_against_seconds_or_never() {
    let mut sample = torrent("sample");
    assert!(matches_last_activity(&sample, &LastActivityValue::Seconds(num(99.0))));
    assert!(!matches_last_activity(&sample, &LastActivityValue::Seconds(num(100.0))));
    assert!(!matches_last_activity(&sample, &LastActivityValue::Never));
    sample.last_activity = None;
    assert!(!matches_last_activity(&sample, &LastActivityValue::Seconds(num(0.0))));
    assert!(matches_last_activity(&sample, &LastActivityValue::Never));
}

#[test]
fn trackers_are_named_by_address_or_host() {
    let named = vec!["tracker.example.org".to_string(), "not an address".to_string()];
    assert!(tracker_selected("https://tracker.example.org:8080/announce?key=1", &named));
    assert!(tracker_selected("udp://tracker.example.org:1337/announce", &named));
    assert!(tracker_selected("not an address", &named));
    assert!(tracker_selected("tracker.example.org", &named));
    assert!(!tracker_selected("https://other.example.org/announce", &named));
    assert!(!tracker_selected("** [DHT] **", &named));
    assert!(tracker_named("not an address", &None, &named));
    assert!(!tracker_named("else", &None, &named));
}

#[test]
fn filters_take_categories_trackers_and_statuses() {
    let mut a = torrent("a");
    a.category = vec!["IPT".to_string()];
    a.tracker = vec!["https://one.example/announce".to_string()];
    let mut b = torrent("b");
    b.category = vec!["TV".to_string()];
    b.tracker = vec!["https://two.example/announce".to_string()];
    b.status = TorrentStatus::Downloading;
    b.stalled = true;
    let c = torrent("c");
    let torrents = vec![a, b, c];
    let mut filters = all();
    assert_eq!(apply_filters(&filters, &torrents).len(), 3);
    filters.all_categories = false;
    filters.categories = vec!["IPT".to_string(), "TV".to_string()];
    assert_eq!(names(&apply_filters(&filters, &torrents)), vec!["a", "b"]);
    filters.excluded_trackers = vec!["one.example".to_string()];
    assert_eq!(names(&apply_filters(&filters, &torrents)), vec!["b"]);
    filters.all_trackers = false;
    filters.trackers = vec!["one.example".to_string()];
    assert!(apply_filters(&filters, &torrents).is_empty());
    let mut filters = all();
    filters.all_status = false;
    assert!(apply_filters(&filters, &torrents).is_empty());
    filters.status.stalled_download = true;
    assert_eq!(names(&apply_filters(&filters, &torrents)), vec!["b"]);
    filters.status.statuses = vec![TorrentStatus::Uploading];
    assert_eq!(names(&apply_filters(&filters, &torrents)), vec!["a", "b", "c"]);
    filters.excluded_status.stalled_download = true;
    assert_eq!(names(&apply_filters(&filters, &torrents)), vec!["a", "c"]);
    filters.excluded_status.stalled_upload = true;
    assert_eq!(names(&apply_filters(&filters, &torrents)), vec!["a", "c"]);
}

#[test]
fn states_of_qbittorrent_have_a_status() {
    for (state, status) in [
        ("downloading", TorrentStatus::Downloading),
        ("stalledDL", TorrentStatus::Downloading),
        ("queuedDL", TorrentStatus::Queued),
        ("queuedUP", TorrentStatus::Queued),
        ("uploading", TorrentStatus::Uploading),
        ("stalledUP", TorrentStatus::Uploading),
        ("checkingUP", TorrentStatus::Checking),
        ("checkingDL", TorrentStatus::Checking),
        ("pausedUP", TorrentStatus::Paused),
        ("pausedDL", TorrentStatus::Paused),
        ("error", TorrentStatus::Error),
        ("moving", TorrentStatus::Unknown),
        ("", TorrentStatus::Unknown),
        ("Uploading", TorrentStatus::Unknown),
    ] {
        assert_eq!(map_qbit_status(state), status, "{state}");
    }
}

fn listed(name: &str, content_path: &str, addition_date: i64) -> ListedTorrent {
    ListedTorrent {
        summary: QbitTorrentSummary {
            hash: format!("hash-{name}"),
            name: name.to_string(),
            category: "IPT".to_string(),
            state: "stalledUP".to_string(),
            content_path: content_path.to_string(),
            size: 7,
            ratio: num(1.5),
            progress: num(1.0),
            last_activity: Some(900),
        },
        properties: QbitTorrentProperties {
            total_uploaded: 1,
            total_downloaded: 2,
            addition_date,
            seeding_time: 3,
            downloading_time: 4,
            up_speed: 5,
            dl_speed: 6,
            seeds_total: 7,
            seeds: 8,
            peers_total: 9,
            peers: 10,
            up_speed_avg: 11,
            dl_speed_avg: 12,
        },
        trackers: vec!["one".to_string(), "two".to_string()],
    }
}

#[test]
fn reports_become_torrents() {
    let mut list = vec![
        listed("a", "/x", 50),
        listed("b", "/x", 20),
        listed("c", "", 5),
        listed("d", "", 70),
        listed("e", "/x", 30),
    ];
    list[2].summary.category = String::new();
    list[2].summary.last_activity = Some(0);
    list[3].summary.last_activity = Some(2_000);
    list[3].summary.state = "downloading".to_string();
    list[4].summary.last_activity = None;
    let torrents = build_torrents(&list, 1_000);
    let times: Vec<i64> = torrents.iter().map(|torrent| torrent.create_time).collect();
    assert_eq!(times, vec![20, 20, 5, 70, 20]);
    let a = &torrents[0];
    assert_eq!(a.hash, "hash-a");
    assert_eq!(a.name, "a");
    assert_eq!(a.content_path, "/x");
    assert_eq!(a.category, vec!["IPT".to_string()]);
    assert_eq!(a.tracker, vec!["one".to_string(), "two".to_string()]);
    assert_eq!(a.status, TorrentStatus::Uploading);
    assert!(a.stalled);
    assert_eq!(a.size, 7);
    assert_eq!(f64::from_bits(a.ratio.bits), 1.5);
    assert_eq!((a.uploaded, a.downloaded), (1, 2));
    assert_eq!((a.seeding_time, a.downloading_time), (3, 4));
    assert_eq!((a.upload_speed, a.average_upload_speed), (5, 11));
    assert_eq!((a.download_speed, a.average_download_speed), (6, 12));
    assert_eq!((a.seeder, a.connected_seeder), (7, 8));
    assert_eq!((a.leecher, a.connected_leecher), (9, 10));
    assert_eq!(a.last_activity, Some(100));
    assert!(torrents[2].category.is_empty());
    assert_eq!(torrents[2].last_activity, None);
    assert_eq!(torrents[3].last_activity, Some(0));
    assert!(!torrents[3].stalled);
    assert_eq!(torrents[4].last_activity, None);
}
