use qb_tools::address::{
    api_url, build_origin, check_host, normalize_base_url, origin_of, AddressError, UrlParts,
};
use qb_tools::api::{
    check_login, check_response, client_status_request, delete_torrents, list_request,
    login_request, open_session, properties_request, set_auto_management, set_location,
    trackers_request, ApiRequest, LoginError, Method, Session,
};
use qb_tools::config::ClientConfig;

fn client(host: &str) -> ClientConfig {
    ClientConfig {
        host: host.to_string(),
        username: "admin".to_string(),
        password: "secret".to_string(),
    }
}

fn session() -> Session {
    match open_session(&client("http://127.0.0.1:8080")) {
        Ok(session) => session,
        Err(_) => panic!("session opens"),
    }
}

fn pairs(request: &ApiRequest) -> Vec<(&str, &str)> {
    request
        .parameters
        .iter()
        .map(|(name, value)| (name.as_str(), value.as_str()))
        .collect()
}

#[test]
fn base_address_has_no_path_query_or_fragment() {
    for (host, base) in [
        ("http://127.0.0.1:8080", "http://127.0.0.1:8080/"),
        ("HTTPS://Example.ORG//?a=b#c", "https://example.org/"),
        ("http://example.org:80", "http://example.org/"),
        ("http://[::1]:8080/", "http://[::1]:8080/"),
    ] {
        assert_eq!(normalize_base_url(host), Ok(base.to_string()), "{host}");
    }
}

#[test]
fn faulty_addresses_are_turned_down() {
    assert_eq!(normalize_base_url("localhost"), Err(AddressError::Invalid));
    assert_eq!(normalize_base_url(""), Err(AddressError::Invalid));
    assert_eq!(normalize_base_url("ftp://example.org"), Err(AddressError::NotWeb));
    assert_eq!(normalize_base_url("localhost:8080"), Err(AddressError::NotWeb));
    assert_eq!(normalize_base_url("http://example.org/qb"), Err(AddressError::HasPath));
    let parts = UrlParts {
        scheme: "http".to_string(),
        host: None,
        port: None,
        path: "/".to_string(),
        query: None,
        fragment: None,
        length: 9,
    };
    assert_eq!(check_host(&Some(parts)), Some(AddressError::NoHost));
    assert_eq!(check_host(&None), Some(AddressError::Invalid));
}

#[test]
fn origin_is_scheme_host_and_port() {
    assert_eq!(build_origin("http://127.0.0.1:8080/"), Some("http://127.0.0.1:8080".to_string()));
    assert_eq!(build_origin("https://example.org/"), Some("https://example.org".to_string()));
    assert_eq!(build_origin("https://example.org:65535/"), Some("https://example.org:65535".to_string()));
    assert_eq!(build_origin("mailto:x@example.org"), None);
    assert_eq!(build_origin("nonsense"), None);
    let parts = UrlParts {
        scheme: "http".to_string(),
        host: Some("h".to_string()),
        port: Some(9),
        path: "/".to_string(),
        query: None,
        fragment: None,
        length: 9,
    };
    assert_eq!(origin_of(&parts), Some("http://h:9".to_string()));
}

#[test]
fn endpoints_have_addresses() {
    assert_eq!(
        api_url("http://127.0.0.1:8080/", "auth/login"),
        Some("http://127.0.0.1:8080/api/v2/auth/login".to_string())
    );
    assert_eq!(api_url("mailto:x@example.org", "auth/login"), None);
    assert_eq!(api_url("nonsense", "auth/login"), None);
}

#[test]
fn session_knows_where_qbittorrent_is() {
    let session = session();
    assert_eq!(session.base_url, "http://127.0.0.1:8080/");
    assert_eq!(session.origin, "http://127.0.0.1:8080");
    assert_eq!(session.referer, "http://127.0.0.1:8080/");
    assert!(matches!(
        open_session(&client("http://example.org/x")),
        Err(AddressError::HasPath)
    ));
}

#[test]
fn requests_name_endpoint_and_parameters() {
    let session = session();
    let request = login_request(&session, &client("")).expect("request");
    assert_eq!(request.method, Method::Post);
    assert_eq!(request.url, "http://127.0.0.1:8080/api/v2/auth/login");
    assert_eq!(request.referer, "http://127.0.0.1:8080/");
    assert_eq!(request.origin, Some("http://127.0.0.1:8080".to_string()));
    assert_eq!(pairs(&request), vec![("username", "admin"), ("password", "secret")]);

    let request = list_request(&session, None).expect("request");
    assert_eq!(request.method, Method::Get);
    assert_eq!(request.url, "http://127.0.0.1:8080/api/v2/torrents/info");
    assert_eq!(request.origin, None);
    assert!(request.parameters.is_empty());
    let hashes = vec!["a".to_string(), "b".to_string(), "c".to_string()];
    let request = list_request(&session, Some(&hashes)).expect("request");
    assert_eq!(pairs(&request), vec![("hashes", "a|b|c")]);

    let request = set_auto_management(&session, "a", false).expect("request");
    assert_eq!(request.url, "http://127.0.0.1:8080/api/v2/torrents/setAutoManagement");
    assert_eq!(pairs(&request), vec![("hashes", "a"), ("enable", "false")]);
    let request = set_auto_management(&session, "a", true).expect("request");
    assert_eq!(pairs(&request), vec![("hashes", "a"), ("enable", "true")]);

    let request = set_location(&session, "a", "/hdd").expect("request");
    assert_eq!(request.url, "http://127.0.0.1:8080/api/v2/torrents/setLocation");
    assert_eq!(pairs(&request), vec![("hashes", "a"), ("location", "/hdd")]);

    let request = delete_torrents(&session, &hashes, true).expect("address").expect("request");
    assert_eq!(request.method, Method::Post);
    assert_eq!(request.url, "http://127.0.0.1:8080/api/v2/torrents/delete");
    assert_eq!(pairs(&request), vec![("hashes", "a|b|c"), ("deleteFiles", "true")]);
    assert!(delete_torrents(&session, &vec![], true).expect("address").is_none());

    let request = client_status_request(&session).expect("request");
    assert_eq!(request.url, "http://127.0.0.1:8080/api/v2/sync/maindata");
    let request = properties_request(&session, "a").expect("request");
    assert_eq!(request.url, "http://127.0.0.1:8080/api/v2/torrents/properties");
    assert_eq!(pairs(&request), vec![("hash", "a")]);
    let request = trackers_request(&session, "a").expect("request");
    assert_eq!(request.url, "http://127.0.0.1:8080/api/v2/torrents/trackers");
    assert_eq!(pairs(&request), vec![("hash", "a")]);
}

#[test]
fn base_that_cannot_be_built_on_has_no_requests() {
    let mut session = session();
    session.base_url = "mailto:x@example.org".to_string();
    assert!(client_status_request(&session).is_none());
    assert!(delete_torrents(&session, &vec!["a".to_string()], true).is_err());
}

#[test]
fn answers_succeed_by_status() {
    assert_eq!(check_response(200, "x"), Ok(()));
    assert_eq!(check_response(299, ""), Ok(()));
    assert_eq!(check_response(199, " no \n"), Err("no".to_string()));
    assert_eq!(check_response(300, ""), Err(String::new()));
    assert_eq!(check_response(403, "\u{a0}forbidden\u{2003}"), Err("forbidden".to_string()));
}

#[test]
fn login_needs_the_word() {
    assert!(check_login(200, "Ok.").is_ok());
    assert!(check_login(204, " Ok.\n").is_ok());
    assert!(matches!(check_login(200, "Fails."), Err(LoginError::Rejected(text)) if text == "Fails."));
    assert!(matches!(check_login(200, "ok."), Err(LoginError::Rejected(_))));
    assert!(matches!(check_login(403, "Ok. "), Err(LoginError::Status(text)) if text == "Ok."));
}

#[test]
fn requests_go_to_the_host_of_the_configuration() {
    let session = match open_session(&client("https://user:pw@Example.org:8443/?q=1#top")) {
        Ok(session) => session,
        Err(error) => panic!("{error:?}"),
    };
    assert_eq!(session.base_url, "https://user:pw@example.org:8443/");
    assert_eq!(session.origin, "https://example.org:8443");
    let request = match list_request(&session, None) {
        Some(request) => request,
        None => panic!("no address"),
    };
    assert_eq!(request.url, "https://user:pw@example.org:8443/api/v2/torrents/info");
    assert_eq!(build_origin(&request.url), Some(session.origin));
}

#[test]
fn paths_end_within_four_gigabytes() {
    let parts = |scheme: &str, path: &str, query: Option<&str>, fragment: Option<&str>| UrlParts {
        scheme: scheme.to_string(),
        host: Some("h".to_string()),
        port: None,
        path: path.to_string(),
        query: query.map(str::to_string),
        fragment: fragment.map(str::to_string),
        length: u32::MAX as usize + 1,
    };
    let fault = |parts: UrlParts| check_host(&Some(parts));
    assert_eq!(fault(parts("http", "/", None, None)), Some(AddressError::Invalid));
    assert_eq!(fault(parts("http", "/", Some("q"), None)), None);
    assert_eq!(fault(parts("http", "/", None, Some("f"))), None);
    assert_eq!(fault(parts("ftp", "/", None, None)), Some(AddressError::NotWeb));
    assert_eq!(fault(parts("http", "/a", None, None)), Some(AddressError::HasPath));
    let mut longest = parts("http", "/", None, None);
    longest.length = u32::MAX as usize;
    assert_eq!(fault(longest), None);
}
