//! The requests to the API of qBittorrent, and what its answers mean.

use crate::address::{
    api_url, build_origin, host_fault, is_base_of, law_origins_name_the_site, normalize_base_url,
    origin, same_site, stays_at_site, text_within, url_joined, url_parts, AddressError,
};
use crate::config::ClientConfig;
use crate::text::{join, joined, same_text, texts, trim, trimmed};
use vstd::prelude::*;

verus! {

/// How a request is made.
#[derive(Clone, Copy, PartialEq, Eq, Structural, Debug)]
pub enum Method {
    /// The parameters make up the query.
    Get,
    /// The parameters make up a form.
    Post,
}

/// A request.
pub struct ApiRequest {
    pub method: Method,
    pub url: String,
    pub referer: String,
    /// The origin, where it has to be named.
    pub origin: Option<String>,
    pub parameters: Vec<(String, String)>,
}

/// Where qBittorrent is reached.
pub struct Session {
    pub base_url: String,
    pub origin: String,
    pub referer: String,
}

/// Names and values of parameters.
pub open spec fn pairs(parameters: Seq<(String, String)>) -> Seq<(Seq<char>, Seq<char>)> {
    Seq::new(parameters.len(), |i: int| (parameters[i].0@, parameters[i].1@))
}

/// Whether a session is the one with the qBittorrent at an address.
pub open spec fn is_session_at(host: Seq<char>, session: Session) -> bool {
    &&& is_base_of(host, session.base_url@)
    &&& origin(url_parts(host)->0) == Some(session.origin@)
    &&& session.referer@ == session.origin@ + "/"@
}

/// Finds out where qBittorrent is reached.
pub fn open_session(config: &ClientConfig) -> (outcome: Result<Session, AddressError>)
    ensures
        match outcome {
            Ok(session) => host_fault(url_parts(config.host@)) is None && is_session_at(
                config.host@,
                session,
            ),
            Err(error) => host_fault(url_parts(config.host@)) == Some(error),
        },
{
    let base = match normalize_base_url(config.host.as_str()) {
        Ok(base) => base,
        Err(error) => {
            return Err(error);
        },
    };
    match build_origin(base.as_str()) {
        None => Err(AddressError::NoHost),
        Some(origin) => {
            let mut referer = origin.clone();
            referer.append("/");
            Ok(Session { base_url: base, origin, referer })
        },
    }
}

/// Whether a request is the one to an endpoint with the given parameters. Only forms name the
/// origin.
pub open spec fn is_request(
    session: Session,
    method: Method,
    endpoint: Seq<char>,
    parameters: Seq<(Seq<char>, Seq<char>)>,
    request: ApiRequest,
) -> bool {
    &&& request.method == method
    &&& url_joined(session.base_url@, "/api/v2/"@ + endpoint) == Some(request.url@)
    &&& stays_at_site(session.base_url@, request.url@)
    &&& request.referer@ == session.referer@
    &&& text_within(request.origin) == (if method == Method::Post {
        Some(session.origin@)
    } else {
        None
    })
    &&& pairs(request.parameters@) == parameters
}

/// Whether an outcome is the request to an endpoint; there is none where the endpoint has no
/// address.
pub open spec fn is_request_to(
    session: Session,
    method: Method,
    endpoint: Seq<char>,
    parameters: Seq<(Seq<char>, Seq<char>)>,
    outcome: Option<ApiRequest>,
) -> bool {
    match outcome {
        Some(request) => is_request(session, method, endpoint, parameters, request),
        None => url_joined(session.base_url@, "/api/v2/"@ + endpoint) is None,
    }
}

fn request_to(
    session: &Session,
    method: Method,
    endpoint: &str,
    parameters: Vec<(String, String)>,
) -> (outcome: Option<ApiRequest>)
    ensures
        is_request_to(*session, method, endpoint@, pairs(parameters@), outcome),
{
    match api_url(session.base_url.as_str(), endpoint) {
        None => None,
        Some(url) => {
            let origin: Option<String> = match method {
                Method::Get => None,
                Method::Post => Some(session.origin.clone()),
            };
            Some(ApiRequest { method, url, referer: session.referer.clone(), origin, parameters })
        },
    }
}

/// How a truth value is written.
pub open spec fn truth(value: bool) -> Seq<char> {
    if value {
        "true"@
    } else {
        "false"@
    }
}

fn truth_text(value: bool) -> (text: String)
    ensures
        text@ == truth(value),
{
    if value {
        String::from_str("true")
    } else {
        String::from_str("false")
    }
}

fn one(name: &str, value: String) -> (parameters: Vec<(String, String)>)
    ensures
        pairs(parameters@) == seq![(name@, value@)],
{
    let mut parameters: Vec<(String, String)> = Vec::new();
    parameters.push((String::from_str(name), value));
    assert(pairs(parameters@) =~= seq![(name@, value@)]);
    parameters
}

fn two(first: &str, left: String, second: &str, right: String) -> (parameters: Vec<
    (String, String),
>)
    ensures
        pairs(parameters@) == seq![(first@, left@), (second@, right@)],
{
    let mut parameters: Vec<(String, String)> = Vec::new();
    parameters.push((String::from_str(first), left));
    parameters.push((String::from_str(second), right));
    assert(pairs(parameters@) =~= seq![(first@, left@), (second@, right@)]);
    parameters
}

/// The request that logs in.
pub fn login_request(session: &Session, config: &ClientConfig) -> (outcome: Option<ApiRequest>)
    ensures
        is_request_to(
            *session,
            Method::Post,
            "auth/login"@,
            seq![("username"@, config.username@), ("password"@, config.password@)],
            outcome,
        ),
{
    let parameters = two(
        "username",
        config.username.clone(),
        "password",
        config.password.clone(),
    );
    request_to(session, Method::Post, "auth/login", parameters)
}

/// The request that lists torrents: all of them, or those with the given hashes.
pub fn list_request(session: &Session, hashes: Option<&Vec<String>>) -> (outcome: Option<
    ApiRequest,
>)
    ensures
        is_request_to(
            *session,
            Method::Get,
            "torrents/info"@,
            match hashes {
                Some(hashes) => seq![("hashes"@, joined(texts(hashes@), "|"@))],
                None => Seq::empty(),
            },
            outcome,
        ),
{
    let parameters: Vec<(String, String)> = match hashes {
        Some(hashes) => one("hashes", join(hashes, "|")),
        None => Vec::new(),
    };
    assert(hashes is None ==> pairs(parameters@) =~= Seq::<(Seq<char>, Seq<char>)>::empty());
    request_to(session, Method::Get, "torrents/info", parameters)
}

/// The request that switches the automatic management of a torrent.
pub fn set_auto_management(session: &Session, hash: &str, enable: bool) -> (outcome: Option<
    ApiRequest,
>)
    ensures
        is_request_to(
            *session,
            Method::Post,
            "torrents/setAutoManagement"@,
            seq![("hashes"@, hash@), ("enable"@, truth(enable))],
            outcome,
        ),
{
    let parameters = two("hashes", String::from_str(hash), "enable", truth_text(enable));
    request_to(session, Method::Post, "torrents/setAutoManagement", parameters)
}

/// The request that moves a torrent.
pub fn set_location(session: &Session, hash: &str, location: &str) -> (outcome: Option<ApiRequest>)
    ensures
        is_request_to(
            *session,
            Method::Post,
            "torrents/setLocation"@,
            seq![("hashes"@, hash@), ("location"@, location@)],
            outcome,
        ),
{
    let parameters = two("hashes", String::from_str(hash), "location", String::from_str(location));
    request_to(session, Method::Post, "torrents/setLocation", parameters)
}

/// The request that deletes torrents. There is none where there is nothing to delete; `Err` where
/// the endpoint has no address.
pub fn delete_torrents(session: &Session, hashes: &Vec<String>, delete_data: bool) -> (outcome:
    Result<Option<ApiRequest>, ()>)
    ensures
        match outcome {
            Ok(None) => hashes@.len() == 0,
            Ok(Some(request)) => hashes@.len() > 0 && is_request(
                *session,
                Method::Post,
                "torrents/delete"@,
                seq![
                    ("hashes"@, joined(texts(hashes@), "|"@)),
                    ("deleteFiles"@, truth(delete_data)),
                ],
                request,
            ),
            Err(_) => hashes@.len() > 0 && url_joined(
                session.base_url@,
                "/api/v2/"@ + "torrents/delete"@,
            ) is None,
        },
{
    if hashes.len() == 0 {
        return Ok(None);
    }
    let parameters = two("hashes", join(hashes, "|"), "deleteFiles", truth_text(delete_data));
    match request_to(session, Method::Post, "torrents/delete", parameters) {
        Some(request) => Ok(Some(request)),
        None => Err(()),
    }
}

/// The request for what qBittorrent reports about itself.
pub fn client_status_request(session: &Session) -> (outcome: Option<ApiRequest>)
    ensures
        is_request_to(*session, Method::Get, "sync/maindata"@, Seq::empty(), outcome),
{
    let parameters: Vec<(String, String)> = Vec::new();
    assert(pairs(parameters@) =~= Seq::<(Seq<char>, Seq<char>)>::empty());
    request_to(session, Method::Get, "sync/maindata", parameters)
}

/// The request for the properties of a torrent.
pub fn properties_request(session: &Session, hash: &str) -> (outcome: Option<ApiRequest>)
    ensures
        is_request_to(
            *session,
            Method::Get,
            "torrents/properties"@,
            seq![("hash"@, hash@)],
            outcome,
        ),
{
    let parameters = one("hash", String::from_str(hash));
    request_to(session, Method::Get, "torrents/properties", parameters)
}

/// The request for the trackers of a torrent.
pub fn trackers_request(session: &Session, hash: &str) -> (outcome: Option<ApiRequest>)
    ensures
        is_request_to(
            *session,
            Method::Get,
            "torrents/trackers"@,
            seq![("hash"@, hash@)],
            outcome,
        ),
{
    let parameters = one("hash", String::from_str(hash));
    request_to(session, Method::Get, "torrents/trackers", parameters)
}

/// Whether a status tells of success.
pub open spec fn is_success(status: u16) -> bool {
    200 <= status <= 299
}

/// Checks the status of an answer. A failure comes with the text of the answer, without the white
/// space around it.
pub fn check_response(status: u16, body: &str) -> (outcome: Result<(), String>)
    ensures
        match outcome {
            Ok(_) => is_success(status),
            Err(text) => !is_success(status) && text@ == trimmed(body@),
        },
{
    if 200 <= status && status <= 299 {
        Ok(())
    } else {
        Err(trim(body))
    }
}

/// Why a login failed, with the text of the answer.
pub enum LoginError {
    Status(String),
    Rejected(String),
}

/// Checks the answer to a login: it has to be `Ok.`.
pub fn check_login(status: u16, body: &str) -> (outcome: Result<(), LoginError>)
    ensures
        match outcome {
            Ok(_) => is_success(status) && trimmed(body@) == "Ok."@,
            Err(LoginError::Status(text)) => !is_success(status) && text@ == trimmed(body@),
            Err(LoginError::Rejected(text)) => is_success(status) && trimmed(body@) != "Ok."@
                && text@ == trimmed(body@),
        },
{
    let text = trim(body);
    if check_response(status, body).is_err() {
        return Err(LoginError::Status(text));
    }
    if same_text(text.as_str(), "Ok.") {
        Ok(())
    } else {
        Err(LoginError::Rejected(text))
    }
}

/// Every request of a session goes to the scheme, host and port that the configuration names.
pub proof fn law_requests_go_to_the_host(
    host: Seq<char>,
    session: Session,
    method: Method,
    endpoint: Seq<char>,
    parameters: Seq<(Seq<char>, Seq<char>)>,
    request: ApiRequest,
)
    requires
        host_fault(url_parts(host)) is None,
        is_session_at(host, session),
        is_request(session, method, endpoint, parameters, request),
    ensures
        url_parts(request.url@) is Some,
        same_site(url_parts(request.url@)->0, url_parts(host)->0),
{
}

/// What a request carries: its parameters, and where it comes from. Only a form names the origin. It
/// goes to an endpoint below `/api/v2/`.
pub proof fn law_requests_carry_their_parameters(
    session: Session,
    method: Method,
    endpoint: Seq<char>,
    parameters: Seq<(Seq<char>, Seq<char>)>,
    request: ApiRequest,
)
    requires
        is_request(session, method, endpoint, parameters, request),
    ensures
        request.method == method,
        request.parameters@.len() == parameters.len(),
        forall|i: int|
            0 <= i < parameters.len() ==> (#[trigger] request.parameters@[i]).0@ == parameters[i].0
                && request.parameters@[i].1@ == parameters[i].1,
        request.referer@ == session.referer@,
        method == Method::Get ==> request.origin is None,
        method == Method::Post ==> request.origin is Some && request.origin->0@ == session.origin@,
        url_joined(session.base_url@, "/api/v2/"@ + endpoint) == Some(request.url@),
{
}

/// The statuses that tell of success are those from 200 on, up to but not including 300.
pub proof fn law_statuses_tell_of_success(status: u16)
    ensures
        is_success(status) <==> status / 100 == 2,
{
}

/// A truth value is written as `true` or `false`.
pub proof fn law_truth_is_written(value: bool)
    ensures
        truth(value) == "true"@ <==> value,
        truth(value) == "false"@ <==> !value,
{
    reveal_strlit("true");
    reveal_strlit("false");
    assert("true"@.len() == 4 && "false"@.len() == 5);
}

/// The referer of a session is its origin, with a slash.
pub proof fn law_sessions_name_their_origin(host: Seq<char>, session: Session)
    requires
        is_session_at(host, session),
    ensures
        session.referer@ == session.origin@.push('/'),
        url_parts(host) matches Some(parts) ==> (parts.host is Some && parts.port is None
            ==> session.origin@ == parts.scheme + seq![':', '/', '/'] + parts.host->0),
{
    reveal_strlit("/");
    assert(session.referer@ =~= session.origin@.push('/'));
    if url_parts(host) is Some {
        law_origins_name_the_site(url_parts(host)->0);
    }
}

} // verus!
