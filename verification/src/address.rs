//! Web addresses: the base address of qBittorrent, the addresses of its API, and the hosts of
//! trackers.

use crate::text::{same_text, string_of};
use vstd::prelude::*;

verus! {

/// The parts of an address.
pub struct UrlParts {
    pub scheme: String,
    pub host: Option<String>,
    /// The port, unless it is the one that the scheme implies.
    pub port: Option<u16>,
    pub path: String,
    pub query: Option<String>,
    pub fragment: Option<String>,
    /// How many bytes the whole address takes up.
    pub length: usize,
}

/// What the parts of an address say.
pub struct UrlView {
    pub scheme: Seq<char>,
    pub host: Option<Seq<char>>,
    pub port: Option<u16>,
    pub path: Seq<char>,
    pub query: Option<Seq<char>>,
    pub fragment: Option<Seq<char>>,
    pub length: usize,
}

/// What an optional text says.
pub open spec fn text_within(text: Option<String>) -> Option<Seq<char>> {
    match text {
        Some(text) => Some(text@),
        None => None,
    }
}

impl View for UrlParts {
    type V = UrlView;

    open spec fn view(&self) -> UrlView {
        UrlView {
            scheme: self.scheme@,
            host: text_within(self.host),
            port: self.port,
            path: self.path@,
            query: text_within(self.query),
            fragment: text_within(self.fragment),
            length: self.length,
        }
    }
}

/// The parts that `Url::parse` finds in a text; `None` where it fails.
pub uninterp spec fn url_parts(text: Seq<char>) -> Option<UrlView>;

/// The text of the address that `Url::set_path` makes of an address and a path; `None` where
/// `Url::parse` does not take the address.
pub uninterp spec fn url_with_path(url: Seq<char>, path: Seq<char>) -> Option<Seq<char>>;

/// The text of the address that `Url::set_query` with no query makes of an address; `None` where
/// `Url::parse` does not take the address.
pub uninterp spec fn url_without_query(url: Seq<char>) -> Option<Seq<char>>;

/// The text of the address that `Url::set_fragment` with no fragment makes of an address; `None`
/// where `Url::parse` does not take the address.
pub uninterp spec fn url_without_fragment(url: Seq<char>) -> Option<Seq<char>>;

/// The text of the address that `Url::join` makes of an address and a reference; `None` where it, or
/// `Url::parse` before it, fails.
pub uninterp spec fn url_joined(base: Seq<char>, reference: Seq<char>) -> Option<Seq<char>>;

/// Whether an address is one of the web.
pub open spec fn is_web(parts: UrlView) -> bool {
    parts.scheme == "http"@ || parts.scheme == "https"@
}

/// Whether two addresses lie at the same site: the same scheme, host and port.
pub open spec fn same_site(left: UrlView, right: UrlView) -> bool {
    &&& left.scheme == right.scheme
    &&& left.host == right.host
    &&& left.port == right.port
}

/// Whether a text is an address at the site of a base address, where the base is one of the web.
pub open spec fn stays_at_site(base: Seq<char>, url: Seq<char>) -> bool {
    url_parts(base) is Some && is_web(url_parts(base)->0) ==> url_parts(url) is Some && same_site(
        url_parts(url)->0,
        url_parts(base)->0,
    )
}

/// Whether a text is an address at the site of a web address, with the given path, query and
/// fragment.
pub open spec fn is_changed_to(
    url: Seq<char>,
    path: Seq<char>,
    query: Option<Seq<char>>,
    fragment: Option<Seq<char>>,
    changed: Seq<char>,
) -> bool {
    &&& stays_at_site(url, changed)
    &&& url_parts(url) is Some && is_web(url_parts(url)->0) ==> {
        &&& url_parts(changed)->0.path == path
        &&& url_parts(changed)->0.query == query
        &&& url_parts(changed)->0.fragment == fragment
    }
}

/// Whether the path of an address ends beyond four gigabytes. Where a query or a fragment follows
/// the path, it begins below that in every address.
pub open spec fn is_oversized(parts: UrlView) -> bool {
    parts.length > u32::MAX && parts.query is None && parts.fragment is None
}

/// Whether a reference names a path from the root, and no host.
pub open spec fn is_rooted(reference: Seq<char>) -> bool {
    reference.len() >= 2 && reference[0] == '/' && 'a' <= reference[1] <= 'z'
}

/// Calls `reqwest::Url::parse` and hands out the scheme, the host, the port, the path, the query, the
/// fragment and the length of the text that it keeps. The parts depend on the text alone; what they
/// are is not stated.
#[verifier::external_body]
pub(crate) fn parse_url(text: &str) -> (parts: Option<UrlParts>)
    ensures
        match parts {
            Some(parts) => url_parts(text@) == Some(parts@),
            None => url_parts(text@) is None,
        },
{
    match reqwest::Url::parse(text) {
        Ok(url) => Some(
            UrlParts {
                scheme: url.scheme().to_owned(),
                host: url.host_str().map(str::to_owned),
                port: url.port(),
                path: url.path().to_owned(),
                query: url.query().map(str::to_owned),
                fragment: url.fragment().map(str::to_owned),
                length: url.as_str().len(),
            },
        ),
        Err(_) => None,
    }
}

/// Calls `reqwest::Url::set_path` on a parsed address. The address it makes depends on the two texts
/// alone. With the root path a web address keeps its scheme, host, port, query and fragment and gets
/// that path, and the text of an address is always one that parses to the same parts; what else the
/// address says is not stated. An address whose path ends beyond four gigabytes is left out, as
/// `set_path` panics on it.
#[verifier::external_body]
fn set_url_path(url: &str, path: &str) -> (changed: Option<String>)
    requires
        url_parts(url@) is Some,
        is_web(url_parts(url@)->0),
        !is_oversized(url_parts(url@)->0),
        path@ == "/"@,
    ensures
        text_within(changed) == url_with_path(url@, path@),
        changed is Some,
        is_changed_to(
            url@,
            path@,
            url_parts(url@)->0.query,
            url_parts(url@)->0.fragment,
            changed->0@,
        ),
{
    match reqwest::Url::parse(url) {
        Ok(mut parsed) => {
            parsed.set_path(path);
            Some(parsed.to_string())
        },
        Err(_) => None,
    }
}

/// Calls `reqwest::Url::set_query` with no query on a parsed address. The address it makes depends on
/// the text alone. A web address keeps its scheme, host, port, path and fragment and has no query, and
/// the text of an address is always one that parses to the same parts; what else the address says is
/// not stated.
#[verifier::external_body]
fn clear_url_query(url: &str) -> (changed: Option<String>)
    ensures
        text_within(changed) == url_without_query(url@),
        changed is Some == url_parts(url@) is Some,
        changed is Some ==> is_changed_to(
            url@,
            url_parts(url@)->0.path,
            None,
            url_parts(url@)->0.fragment,
            changed->0@,
        ),
{
    match reqwest::Url::parse(url) {
        Ok(mut parsed) => {
            parsed.set_query(None);
            Some(parsed.to_string())
        },
        Err(_) => None,
    }
}

/// Calls `reqwest::Url::set_fragment` with no fragment on a parsed address. The address it makes
/// depends on the text alone. A web address keeps its scheme, host, port, path and query and has no
/// fragment, and the text of an address is always one that parses to the same parts; what else the
/// address says is not stated.
#[verifier::external_body]
fn clear_url_fragment(url: &str) -> (changed: Option<String>)
    ensures
        text_within(changed) == url_without_fragment(url@),
        changed is Some == url_parts(url@) is Some,
        changed is Some ==> is_changed_to(
            url@,
            url_parts(url@)->0.path,
            url_parts(url@)->0.query,
            None,
            changed->0@,
        ),
{
    match reqwest::Url::parse(url) {
        Ok(mut parsed) => {
            parsed.set_fragment(None);
            Some(parsed.to_string())
        },
        Err(_) => None,
    }
}

/// Calls `reqwest::Url::join` on a parsed address. The address it makes depends on the two texts
/// alone. A reference that names a path from the root, and no host, leaves a web address its scheme,
/// host and port, and the text of an address is always one that parses to the same parts; what else
/// the address says is not stated.
#[verifier::external_body]
fn join_url(base: &str, reference: &str) -> (joined: Option<String>)
    ensures
        text_within(joined) == url_joined(base@, reference@),
        joined is Some && is_rooted(reference@) ==> stays_at_site(base@, joined->0@),
{
    match reqwest::Url::parse(base) {
        Ok(url) => match url.join(reference) {
            Ok(joined) => Some(joined.to_string()),
            Err(_) => None,
        },
        Err(_) => None,
    }
}

/// Why an address cannot be that of qBittorrent.
#[derive(Clone, Copy, PartialEq, Eq, Structural, Debug)]
pub enum AddressError {
    Invalid,
    NotWeb,
    NoHost,
    HasPath,
}

/// Whether a path holds nothing but slashes.
pub open spec fn is_blank_path(path: Seq<char>) -> bool {
    forall|i: int| 0 <= i < path.len() ==> #[trigger] path[i] == '/'
}

/// What is wrong with the address of qBittorrent, given its parts. The path must end within four
/// gigabytes.
pub open spec fn host_fault(parts: Option<UrlView>) -> Option<AddressError> {
    match parts {
        None => Some(AddressError::Invalid),
        Some(parts) => if !is_web(parts) {
            Some(AddressError::NotWeb)
        } else if parts.host is None {
            Some(AddressError::NoHost)
        } else if !is_blank_path(parts.path) {
            Some(AddressError::HasPath)
        } else if is_oversized(parts) {
            Some(AddressError::Invalid)
        } else {
            None
        },
    }
}

/// The base address: the address with the root path, without query and fragment.
pub open spec fn base_url(host: Seq<char>) -> Option<Seq<char>> {
    match url_with_path(host, "/"@) {
        None => None,
        Some(rooted) => match url_without_query(rooted) {
            None => None,
            Some(bare) => url_without_fragment(bare),
        },
    }
}

fn blank_path(path: &str) -> (blank: bool)
    ensures
        blank == is_blank_path(path@),
{
    let chars = crate::text::chars_of(path);
    let mut i: usize = 0;
    while i < chars.len()
        invariant
            i <= chars@.len(),
            chars@ == path@,
            forall|j: int| 0 <= j < i ==> #[trigger] path@[j] == '/',
        decreases chars.len() - i,
    {
        if chars[i] != '/' {
            assert(path@[i as int] != '/');
            return false;
        }
        i = i + 1;
    }
    true
}

/// What is wrong with the address of qBittorrent, given its parts.
pub fn check_host(parts: &Option<UrlParts>) -> (fault: Option<AddressError>)
    ensures
        fault == host_fault(
            match *parts {
                Some(parts) => Some(parts@),
                None => None,
            },
        ),
{
    match parts {
        None => Some(AddressError::Invalid),
        Some(parts) => {
            if !same_text(parts.scheme.as_str(), "http") && !same_text(
                parts.scheme.as_str(),
                "https",
            ) {
                Some(AddressError::NotWeb)
            } else if parts.host.is_none() {
                Some(AddressError::NoHost)
            } else if !blank_path(parts.path.as_str()) {
                Some(AddressError::HasPath)
            } else if parts.length > u32::MAX as usize && parts.query.is_none()
                && parts.fragment.is_none() {
                Some(AddressError::Invalid)
            } else {
                None
            }
        },
    }
}

/// Whether a text is the base address that belongs to the address of qBittorrent.
pub open spec fn is_base_of(host: Seq<char>, base: Seq<char>) -> bool {
    &&& base_url(host) == Some(base)
    &&& url_parts(base) is Some
    &&& same_site(url_parts(base)->0, url_parts(host)->0)
    &&& url_parts(base)->0.path == "/"@
    &&& url_parts(base)->0.query is None
    &&& url_parts(base)->0.fragment is None
}

/// The base address of qBittorrent: a web address with a host and no path.
pub fn normalize_base_url(host: &str) -> (base: Result<String, AddressError>)
    ensures
        match base {
            Ok(base) => host_fault(url_parts(host@)) is None && is_base_of(host@, base@),
            Err(error) => host_fault(url_parts(host@)) == Some(error),
        },
{
    let parts = parse_url(host);
    if let Some(fault) = check_host(&parts) {
        return Err(fault);
    }
    match set_url_path(host, "/") {
        None => Err(AddressError::Invalid),
        Some(rooted) => match clear_url_query(rooted.as_str()) {
            None => Err(AddressError::Invalid),
            Some(bare) => match clear_url_fragment(bare.as_str()) {
                None => Err(AddressError::Invalid),
                Some(base) => Ok(base),
            },
        },
    }
}

/// The decimal digits of a number.
pub open spec fn digits(number: nat) -> Seq<char>
    decreases number,
{
    let last = (number % 10 + '0' as nat) as char;
    if number < 10 {
        seq![last]
    } else {
        digits(number / 10).push(last)
    }
}

/// The decimal digits of a port.
fn port_digits(port: u16) -> (chars: Vec<char>)
    ensures
        chars@ == digits(port as nat),
    decreases port,
{
    let last: u8 = (port % 10) as u8 + 48;
    let mut chars: Vec<char> = if port < 10 {
        Vec::new()
    } else {
        port_digits(port / 10)
    };
    chars.push(last as char);
    assert(chars@ =~= digits(port as nat));
    chars
}

/// The origin of an address, given its parts: scheme, host and port.
pub open spec fn origin(parts: UrlView) -> Option<Seq<char>> {
    match (parts.host, parts.port) {
        (None, _) => None,
        (Some(host), Some(port)) => Some(
            parts.scheme + "://"@ + host + ":"@ + digits(port as nat),
        ),
        (Some(host), None) => Some(parts.scheme + "://"@ + host),
    }
}

/// The origin of an address, given its parts; one without a host has none.
pub fn origin_of(parts: &UrlParts) -> (text: Option<String>)
    ensures
        text_within(text) == origin(parts@),
{
    match &parts.host {
        None => None,
        Some(host) => {
            let mut text = parts.scheme.clone();
            text.append("://");
            text.append(host.as_str());
            if let Some(port) = parts.port {
                text.append(":");
                text.append(string_of(&port_digits(port)).as_str());
            }
            Some(text)
        },
    }
}

/// The origin of a base address; `None` where the address is none or has no host.
pub fn build_origin(base_url: &str) -> (text: Option<String>)
    ensures
        text_within(text) == (match url_parts(base_url@) {
            Some(parts) => origin(parts),
            None => None,
        }),
{
    match parse_url(base_url) {
        None => None,
        Some(parts) => origin_of(&parts),
    }
}

/// The address of an endpoint of the API, at the site of the base; `None` where the base is no
/// address that others can be built on.
pub fn api_url(base_url: &str, endpoint: &str) -> (url: Option<String>)
    ensures
        text_within(url) == url_joined(base_url@, "/api/v2/"@ + endpoint@),
        url is Some ==> stays_at_site(base_url@, url->0@),
{
    let mut reference = String::from_str("/api/v2/");
    reference.append(endpoint);
    proof {
        reveal_strlit("/api/v2/");
    }
    join_url(base_url, reference.as_str())
}

/// What an address has to be: one of the web, with a host, and with no path but the root. What it is
/// not first is what is wrong with it.
pub proof fn law_hosts_are_checked(parts: UrlView)
    ensures
        host_fault(None) == Some(AddressError::Invalid),
        parts.scheme != "http"@ && parts.scheme != "https"@ <==> host_fault(Some(parts)) == Some(
            AddressError::NotWeb,
        ),
        (parts.scheme == "http"@ || parts.scheme == "https"@) && parts.host is None <==> host_fault(
            Some(parts),
        ) == Some(AddressError::NoHost),
        (parts.scheme == "http"@ || parts.scheme == "https"@) && parts.host is Some && (exists|
            i: int,
        |
            0 <= i < parts.path.len() && #[trigger] parts.path[i] != '/') <==> host_fault(Some(parts))
            == Some(AddressError::HasPath),
        parts.length <= 0xffff_ffff ==> host_fault(Some(parts)) != Some(AddressError::Invalid),
{
}

/// What digits say.
pub open spec fn number_said(text: Seq<char>) -> int {
    text.fold_left(0int, |number: int, ch: char| 10 * number + (ch as int - '0' as int))
}

/// A number is written with decimal digits that say the number, and without a needless zero.
pub proof fn law_digits_say_the_number(number: nat)
    ensures
        number_said(digits(number)) == number,
        digits(number).len() > 0,
        forall|i: int|
            0 <= i < digits(number).len() ==> '0' <= #[trigger] digits(number)[i] <= '9',
        number > 0 ==> digits(number)[0] != '0',
    decreases number,
{
    let last = (number % 10 + '0' as nat) as char;
    let text = digits(number);
    let step = |number: int, ch: char| 10 * number + (ch as int - '0' as int);
    assert(text.last() == last);
    if number < 10 {
        assert(text.drop_last() =~= Seq::<char>::empty());
        assert(text.drop_last().fold_left(0int, step) == 0);
    } else {
        law_digits_say_the_number(number / 10);
        assert(text.drop_last() =~= digits(number / 10));
        assert(text[0] == digits(number / 10)[0]);
    }
    assert(text.fold_left(0int, step) == step(text.drop_last().fold_left(0int, step), last));
}

/// An origin is a scheme and a host, and a port where the scheme does not imply it.
pub proof fn law_origins_name_the_site(parts: UrlView)
    ensures
        origin(parts) is Some <==> parts.host is Some,
        parts.host is Some && parts.port is None ==> origin(parts) == Some(
            parts.scheme + seq![':', '/', '/'] + parts.host->0,
        ),
        parts.host is Some && parts.port is Some ==> ({
            let text = origin(parts)->0;
            let front = parts.scheme + seq![':', '/', '/'] + parts.host->0 + seq![':'];
            &&& front.is_prefix_of(text)
            &&& number_said(text.skip(front.len() as int)) == parts.port->0
        }),
{
    reveal_strlit("://");
    reveal_strlit(":");
    assert("://"@ =~= seq![':', '/', '/']);
    assert(":"@ =~= seq![':']);
    if parts.host is Some && parts.port is Some {
        let text = origin(parts)->0;
        let front = parts.scheme + seq![':', '/', '/'] + parts.host->0 + seq![':'];
        law_digits_say_the_number(parts.port->0 as nat);
        assert(text =~= front + digits(parts.port->0 as nat));
        assert(text.skip(front.len() as int) =~= digits(parts.port->0 as nat));
    }
}

/// A base address is at the site of the address it belongs to, and has no path, query or fragment.
pub proof fn law_bases_are_bare(host: Seq<char>, base: Seq<char>)
    requires
        is_base_of(host, base),
    ensures
        url_parts(base) matches Some(parts) && parts.scheme == url_parts(host)->0.scheme
            && parts.host == url_parts(host)->0.host && parts.port == url_parts(host)->0.port
            && parts.path == "/"@ && parts.query is None && parts.fragment is None,
{
}

} // verus!
