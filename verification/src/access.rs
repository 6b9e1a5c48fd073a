//! Which URLs a guest may send requests to.

use vstd::prelude::*;

use url::{ParseError, Url};

use crate::error::{outcome_view, HttpError, HttpErrorView};

verus! {

/// The error for a text that is no absolute URL.
#[verifier::external_type_specification]
#[verifier::external_body]
pub struct ExParseError(ParseError);

/// The host of the URL that a text stands for: `None` if the text is no URL,
/// `Some(None)` if the URL has no host.
pub uninterp spec fn url_host(url: Seq<char>) -> Option<Option<Seq<char>>>;

/// Calls `Url::parse` and reads the host off the URL with `Url::host_str`.
/// What a text is parsed to hangs on the text alone; the grammar of URLs is
/// left unsaid.
#[verifier::external_body]
fn parse_host(url: &str) -> (r: Result<Option<String>, ParseError>)
    ensures
        match r {
            Ok(Some(host)) => url_host(url@) == Some(Some(host@)),
            Ok(None) => url_host(url@) == Some(None::<Seq<char>>),
            Err(_) => url_host(url@) is None,
        },
{
    Url::parse(url).map(|parsed| parsed.host_str().map(|host| host.to_owned()))
}

/// What is known of the host in a text that should be a URL.
#[derive(Debug, PartialEq, Eq)]
pub enum UrlHost {
    /// The text is no URL.
    Unparsable,
    /// The URL has no host.
    Hostless,
    /// The URL's host.
    Named(String),
}

impl View for UrlHost {
    type V = Option<Option<Seq<char>>>;

    open spec fn view(&self) -> Option<Option<Seq<char>>> {
        match *self {
            UrlHost::Unparsable => None,
            UrlHost::Hostless => Some(None),
            UrlHost::Named(host) => Some(Some(host@)),
        }
    }
}

/// The items of an optional list.
pub open spec fn listed<T>(list: Option<&Vec<T>>) -> Option<Seq<T>> {
    match list {
        Some(items) => Some(items@),
        None => None,
    }
}

/// What is known of the host of each of the allowed URLs.
pub open spec fn url_hosts(urls: Option<Seq<String>>) -> Option<Seq<Option<Option<Seq<char>>>>> {
    match urls {
        Some(urls) => Some(Seq::new(urls.len(), |i: int| url_host(urls[i]@))),
        None => None,
    }
}

/// What is known of each host of a list, as contracts speak of it.
pub open spec fn host_views(hosts: Option<Seq<UrlHost>>) -> Option<
    Seq<Option<Option<Seq<char>>>>,
> {
    match hosts {
        Some(hosts) => Some(Seq::new(hosts.len(), |i: int| hosts[i]@)),
        None => None,
    }
}

/// Whether a list of hosts answers for a host. It does not if its texts are
/// all URLs, and one of them has no host.
pub open spec fn answers(
    host: Option<Option<Seq<char>>>,
    allowed: Option<Seq<Option<Option<Seq<char>>>>>,
) -> bool {
    match (host, allowed) {
        (Some(Some(_)), Some(hosts)) => {
            ||| exists|i: int| 0 <= i < hosts.len() && (#[trigger] hosts[i]) is None
            ||| forall|i: int|
                0 <= i < hosts.len() ==> (#[trigger] hosts[i]) != Some(None::<Seq<char>>)
        },
        _ => true,
    }
}

/// Whether a host is among the allowed ones. A text that is no URL, on either
/// side, is an error, and so is a URL without a host. Without a list nothing is
/// allowed.
pub open spec fn permission(
    host: Option<Option<Seq<char>>>,
    allowed: Option<Seq<Option<Option<Seq<char>>>>>,
) -> Result<bool, HttpErrorView> {
    match (host, allowed) {
        (Some(Some(name)), Some(hosts)) => {
            if exists|i: int| 0 <= i < hosts.len() && (#[trigger] hosts[i]) is None {
                Err(HttpErrorView::InvalidUrl)
            } else {
                Ok(exists|i: int| 0 <= i < hosts.len() && (#[trigger] hosts[i]) == Some(Some(name)))
            }
        },
        (Some(Some(_)), None) => Ok(false),
        _ => Err(HttpErrorView::InvalidUrl),
    }
}

/// Finds out the host of a URL.
pub fn host_of(url: &str) -> (host: UrlHost)
    ensures
        host@ == url_host(url@),
{
    match parse_host(url) {
        Ok(Some(host)) => UrlHost::Named(host),
        Ok(None) => UrlHost::Hostless,
        Err(_) => UrlHost::Unparsable,
    }
}

/// Finds out the hosts of the allowed URLs.
pub fn hosts_of(urls: Option<&Vec<String>>) -> (hosts: Option<Vec<UrlHost>>)
    ensures
        host_views(
            match hosts {
                Some(hosts) => Some(hosts@),
                None => None,
            },
        ) == url_hosts(listed(urls)),
{
    let urls = match urls {
        Some(urls) => urls,
        None => return None,
    };
    let mut hosts: Vec<UrlHost> = Vec::new();
    let mut i: usize = 0;
    while i < urls.len()
        invariant
            i <= urls@.len(),
            hosts@.len() == i,
            forall|j: int| 0 <= j < i ==> (#[trigger] hosts@[j])@ == url_host(urls@[j]@),
        decreases urls@.len() - i,
    {
        hosts.push(host_of(urls[i].as_str()));
        i = i + 1;
    }
    assert(host_views(Some(hosts@))->0 == url_hosts(Some(urls@))->0);
    Some(hosts)
}

/// Whether a list of hosts answers for a host (see [`answers`]).
pub fn list_answers(host: &UrlHost, allowed: Option<&Vec<UrlHost>>) -> (r: bool)
    ensures
        r == answers(host@, host_views(listed(allowed))),
{
    let hosts = match (host, allowed) {
        (UrlHost::Named(_), Some(hosts)) => hosts,
        _ => return true,
    };
    let ghost views = host_views(Some(hosts@))->0;
    let mut all_named: bool = true;
    let mut i: usize = 0;
    while i < hosts.len()
        invariant
            i <= hosts@.len(),
            views.len() == hosts@.len(),
            forall|j: int| 0 <= j < hosts@.len() ==> #[trigger] views[j] == hosts@[j]@,
            forall|j: int| 0 <= j < i ==> (#[trigger] views[j]) is Some,
            all_named <==> forall|j: int|
                0 <= j < i ==> (#[trigger] views[j]) != Some(None::<Seq<char>>),
            host@ matches Some(Some(_)),
            host_views(listed(allowed)) == Some(views),
        decreases hosts@.len() - i,
    {
        assert(views[i as int] == hosts@[i as int]@);
        match &hosts[i] {
            UrlHost::Unparsable => {
                return true;
            },
            UrlHost::Hostless => {
                all_named = false;
            },
            UrlHost::Named(_) => {},
        }
        i = i + 1;
    }
    all_named
}

/// Decides whether a host is among the allowed ones, given the hosts of the
/// URLs.
pub fn is_host_allowed(host: &UrlHost, allowed: Option<&Vec<UrlHost>>) -> (r: Result<
    bool,
    HttpError,
>)
    requires
        answers(host@, host_views(listed(allowed))),
    ensures
        outcome_view(r) == permission(host@, host_views(listed(allowed))),
{
    let name = match host {
        UrlHost::Named(name) => name,
        _ => return Err(HttpError::InvalidUrl),
    };
    let hosts = match allowed {
        Some(hosts) => hosts,
        None => return Ok(false),
    };
    let ghost views = host_views(Some(hosts@))->0;
    let mut found: bool = false;
    let mut i: usize = 0;
    while i < hosts.len()
        invariant
            i <= hosts@.len(),
            views.len() == hosts@.len(),
            forall|j: int| 0 <= j < hosts@.len() ==> #[trigger] views[j] == hosts@[j]@,
            forall|j: int| 0 <= j < i ==> (#[trigger] views[j]) is Some,
            found <==> exists|j: int| 0 <= j < i && (#[trigger] views[j]) == Some(Some(name@)),
            host@ == Some(Some(name@)),
            host_views(listed(allowed)) == Some(views),
        decreases hosts@.len() - i,
    {
        assert(views[i as int] == hosts@[i as int]@);
        match &hosts[i] {
            UrlHost::Unparsable => {
                return Err(HttpError::InvalidUrl);
            },
            UrlHost::Hostless => {},
            UrlHost::Named(other) => {
                if *other == *name {
                    found = true;
                }
            },
        }
        i = i + 1;
    }
    Ok(found)
}

/// Checks if a guest is allowed to send a request to a URL, based on the list
/// of allowed hosts. If `None` is passed, it is not.
pub fn is_allowed(url: &str, allowed_hosts: Option<&Vec<String>>) -> (r: Result<bool, HttpError>)
    requires
        answers(url_host(url@), url_hosts(listed(allowed_hosts))),
    ensures
        outcome_view(r) == permission(url_host(url@), url_hosts(listed(allowed_hosts))),
{
    let host = host_of(url);
    match hosts_of(allowed_hosts) {
        Some(hosts) => is_host_allowed(&host, Some(&hosts)),
        None => is_host_allowed(&host, None),
    }
}

/// Checks if a guest is allowed to send a request to a URL, as [`is_allowed`]
/// does, on every list. There is no result if the list does not answer.
pub fn is_allowed_checked(url: &str, allowed_hosts: Option<&Vec<String>>) -> (r: Option<
    Result<bool, HttpError>,
>)
    ensures
        match r {
            Some(allowed) => {
                &&& answers(url_host(url@), url_hosts(listed(allowed_hosts)))
                &&& outcome_view(allowed) == permission(
                    url_host(url@),
                    url_hosts(listed(allowed_hosts)),
                )
            },
            None => !answers(url_host(url@), url_hosts(listed(allowed_hosts))),
        },
{
    let host = host_of(url);
    let answered: bool = match hosts_of(allowed_hosts) {
        Some(hosts) => list_answers(&host, Some(&hosts)),
        None => true,
    };
    if answered {
        Some(is_allowed(url, allowed_hosts))
    } else {
        None
    }
}

/// Without a list no URL is allowed.
pub proof fn law_no_list_allows_nothing(url: Seq<char>)
    ensures
        permission(url_host(url), None) != Ok::<bool, HttpErrorView>(true),
        answers(url_host(url), None),
{
}

/// A URL is allowed exactly if it and every URL of the list can be parsed, and
/// its host is the host of one of them.
pub proof fn law_allowed_by_host(url: Seq<char>, urls: Seq<String>)
    ensures
        permission(url_host(url), url_hosts(Some(urls))) == Ok::<bool, HttpErrorView>(true) <==> {
            &&& url_host(url) matches Some(Some(_))
            &&& forall|i: int| 0 <= i < urls.len() ==> url_host((#[trigger] urls[i])@) is Some
            &&& exists|i: int|
                0 <= i < urls.len() && url_host((#[trigger] urls[i])@) == url_host(url)
        },
{
    let hosts = url_hosts(Some(urls))->0;
    assert forall|i: int| 0 <= i < urls.len() implies hosts[i] == url_host(
        (#[trigger] urls[i])@,
    ) by {}
    if forall|i: int| 0 <= i < urls.len() ==> url_host((#[trigger] urls[i])@) is Some {
        assert(forall|i: int| 0 <= i < hosts.len() ==> (#[trigger] hosts[i]) == url_host(urls[i]@));
        if exists|i: int| 0 <= i < urls.len() && url_host((#[trigger] urls[i])@) == url_host(url) {
            let i = choose|i: int|
                0 <= i < urls.len() && url_host((#[trigger] urls[i])@) == url_host(url);
            assert(hosts[i] == url_host(url));
        }
    } else {
        let i = choose|i: int| 0 <= i < urls.len() && !(url_host((#[trigger] urls[i])@) is Some);
        assert(hosts[i] is None);
    }
}

/// Two URLs with one host are treated alike.
pub proof fn law_only_the_host_counts(a: Seq<char>, b: Seq<char>, urls: Option<Seq<String>>)
    requires
        url_host(a) == url_host(b),
    ensures
        permission(url_host(a), url_hosts(urls)) == permission(url_host(b), url_hosts(urls)),
        answers(url_host(a), url_hosts(urls)) == answers(url_host(b), url_hosts(urls)),
{
}

/// What a list allows stays allowed when URLs that can be parsed are added.
pub proof fn law_longer_list_allows_more(url: Seq<char>, urls: Seq<String>, more: Seq<String>)
    requires
        permission(url_host(url), url_hosts(Some(urls))) == Ok::<bool, HttpErrorView>(true),
        forall|i: int| 0 <= i < more.len() ==> url_host((#[trigger] more[i])@) is Some,
    ensures
        permission(url_host(url), url_hosts(Some(urls + more))) == Ok::<bool, HttpErrorView>(true),
{
    law_allowed_by_host(url, urls);
    let all = urls + more;
    assert forall|i: int| 0 <= i < all.len() implies url_host((#[trigger] all[i])@) is Some by {
        if i < urls.len() {
            assert(all[i] == urls[i]);
        } else {
            assert(all[i] == more[i - urls.len()]);
        }
    }
    let i = choose|i: int|
        0 <= i < urls.len() && url_host((#[trigger] urls[i])@) == url_host(url);
    assert(all[i] == urls[i]);
    law_allowed_by_host(url, all);
}

/// The answer on a URL, whatever it is: an error exactly if the URL cannot be
/// parsed or has no host, or if there is a list with a text that cannot be
/// parsed; otherwise yes exactly if a URL of the list has the same host. A list
/// does not answer exactly if it comes to its hosts, and one URL has none.
pub proof fn law_every_answer(url: Seq<char>, urls: Option<Seq<String>>)
    ensures
        ({
            let answer = permission(url_host(url), url_hosts(urls));
            let named = url_host(url) matches Some(Some(_));
            let parsed = urls matches Some(list) ==> forall|i: int|
                0 <= i < list.len() ==> url_host((#[trigger] list[i])@) is Some;
            let shared = urls matches Some(list) && exists|i: int|
                0 <= i < list.len() && url_host((#[trigger] list[i])@) == url_host(url);
            let hostless = urls matches Some(list) && exists|i: int|
                0 <= i < list.len() && url_host((#[trigger] list[i])@) == Some(None::<Seq<char>>);
            &&& !named || !parsed ==> answer == Err::<bool, HttpErrorView>(
                HttpErrorView::InvalidUrl,
            )
            &&& named && parsed ==> answer == Ok::<bool, HttpErrorView>(shared)
            &&& answers(url_host(url), url_hosts(urls)) <==> !(named && parsed && hostless)
        }),
{
    if let Some(list) = urls {
        let hosts = url_hosts(urls)->0;
        law_allowed_by_host(url, list);
        assert forall|i: int| 0 <= i < list.len() implies hosts[i] == url_host(
            (#[trigger] list[i])@,
        ) by {}
        assert forall|i: int| 0 <= i < hosts.len() implies (#[trigger] hosts[i]) == url_host(
            list[i]@,
        ) by {}
        if forall|i: int| 0 <= i < list.len() ==> url_host((#[trigger] list[i])@) is Some {
            assert forall|i: int| 0 <= i < hosts.len() implies (#[trigger] hosts[i]) is Some by {
                assert(url_host(list[i]@) is Some);
            }
        } else {
            let i = choose|i: int| 0 <= i < list.len() && !(url_host((#[trigger] list[i])@) is Some);
            assert(hosts[i] is None);
        }
        if exists|i: int|
            0 <= i < list.len() && url_host((#[trigger] list[i])@) == Some(None::<Seq<char>>) {
            let i = choose|i: int|
                0 <= i < list.len() && url_host((#[trigger] list[i])@) == Some(None::<Seq<char>>);
            assert(hosts[i] == Some(None::<Seq<char>>));
        } else {
            assert forall|i: int| 0 <= i < hosts.len() implies (#[trigger] hosts[i]) != Some(
                None::<Seq<char>>,
            ) by {
                assert(url_host(list[i]@) != Some(None::<Seq<char>>));
            }
        }
    }
}

/// Deciding over hosts that are already known comes to the same: an error if
/// the host is not named or a listed text is no URL, otherwise whether the name
/// stands on the list.
pub proof fn law_decision_over_hosts(host: UrlHost, list: Seq<UrlHost>)
    ensures
        permission(host@, None) == (if host is Named {
            Ok::<bool, HttpErrorView>(false)
        } else {
            Err(HttpErrorView::InvalidUrl)
        }),
        !(host is Named) ==> permission(host@, host_views(Some(list))) == Err::<
            bool,
            HttpErrorView,
        >(HttpErrorView::InvalidUrl),
        (exists|i: int| 0 <= i < list.len() && (#[trigger] list[i]) is Unparsable) ==> permission(
            host@,
            host_views(Some(list)),
        ) == Err::<bool, HttpErrorView>(HttpErrorView::InvalidUrl),
        host is Named && (forall|i: int|
            0 <= i < list.len() ==> !((#[trigger] list[i]) is Unparsable)) ==> permission(
            host@,
            host_views(Some(list)),
        ) == Ok::<bool, HttpErrorView>(
            exists|i: int|
                0 <= i < list.len() && (#[trigger] list[i]) is Named && list[i]->Named_0@
                    == host->Named_0@,
        ),
        answers(host@, None),
        answers(host@, host_views(Some(list))) <==> !(host is Named && (forall|i: int|
            0 <= i < list.len() ==> !((#[trigger] list[i]) is Unparsable)) && (exists|i: int|
            0 <= i < list.len() && (#[trigger] list[i]) is Hostless)),
{
    let views = host_views(Some(list))->0;
    assert forall|i: int| 0 <= i < list.len() implies views[i] == (#[trigger] list[i])@ by {}
    assert forall|i: int| 0 <= i < views.len() implies (#[trigger] views[i]) == list[i]@ by {}
    if exists|i: int| 0 <= i < list.len() && (#[trigger] list[i]) is Unparsable {
        let i = choose|i: int| 0 <= i < list.len() && (#[trigger] list[i]) is Unparsable;
        assert(views[i] is None);
    } else {
        assert forall|i: int| 0 <= i < views.len() implies (#[trigger] views[i]) is Some by {
            assert(!(list[i] is Unparsable));
        }
    }
    if exists|i: int| 0 <= i < list.len() && (#[trigger] list[i]) is Hostless {
        let i = choose|i: int| 0 <= i < list.len() && (#[trigger] list[i]) is Hostless;
        assert(views[i] == Some(None::<Seq<char>>));
    } else {
        assert forall|i: int| 0 <= i < views.len() implies (#[trigger] views[i]) != Some(
            None::<Seq<char>>,
        ) by {
            assert(!(list[i] is Hostless));
        }
    }
    if host is Named {
        let name = host->Named_0@;
        if exists|i: int|
            0 <= i < list.len() && (#[trigger] list[i]) is Named && list[i]->Named_0@ == name {
            let i = choose|i: int|
                0 <= i < list.len() && (#[trigger] list[i]) is Named && list[i]->Named_0@ == name;
            assert(views[i] == Some(Some(name)));
        } else {
            assert forall|i: int| 0 <= i < views.len() implies (#[trigger] views[i]) != Some(
                Some(name),
            ) by {
                assert(!(list[i] is Named && list[i]->Named_0@ == name));
            }
        }
    }
}

/// The hosts of a list are those of its URLs, one for one, and contracts see a
/// known host as it is.
pub proof fn law_hosts_one_for_one(urls: Vec<String>, i: int, host: UrlHost, name: String)
    requires
        0 <= i < urls@.len(),
    ensures
        listed(None::<&Vec<String>>) is None,
        listed(Some(&urls)) == Some(urls@),
        url_hosts(None) is None,
        url_hosts(Some(urls@)) matches Some(hosts) && hosts.len() == urls@.len() && hosts[i]
            == url_host(urls@[i]@),
        host is Unparsable <==> host@ is None,
        host is Hostless <==> host@ == Some(None::<Seq<char>>),
        host == UrlHost::Named(name) ==> host@ == Some(Some(name@)),
{
}

/// Contracts see a list of known hosts one for one.
pub proof fn law_known_hosts_one_for_one(list: Seq<UrlHost>, i: int)
    requires
        0 <= i < list.len(),
    ensures
        host_views(None) is None,
        host_views(Some(list)) matches Some(views) && views.len() == list.len() && views[i]
            == list[i]@,
{
}

} // verus!
