use vstd::prelude::*;

use crate::error::{Error, Usage};
use crate::feature::Feature;
use crate::range::BidirectionalRange;
use crate::text::{blank, is_blank, same_text};

verus! {

/// What the engine knows of a registered backend: its registry key, the two
/// host names it answers to and the features it advertises.
#[derive(Debug)]
pub struct BackendInfo {
    pub name: String,
    pub raw_host: String,
    pub html_host: String,
    pub features: Vec<Feature>,
}

/// Two distinct backends share neither a name nor any host name.
pub open spec fn distinct_backends(a: BackendInfo, b: BackendInfo) -> bool {
    &&& a.name@ != b.name@
    &&& a.raw_host@ != b.raw_host@
    &&& a.html_host@ != b.html_host@
    &&& a.raw_host@ != b.html_host@
    &&& a.html_host@ != b.raw_host@
}

/// A registry as the engine expects it: names are unique keys, and every
/// host routes to one backend only (a backend's own two hosts may coincide).
pub open spec fn registry_wf(bins: Seq<BackendInfo>) -> bool {
    forall|i: int, j: int|
        0 <= i < bins.len() && 0 <= j < bins.len() && i != j ==> distinct_backends(
            #[trigger] bins[i],
            #[trigger] bins[j],
        )
}

fn exec_distinct(a: &BackendInfo, b: &BackendInfo) -> (r: bool)
    ensures
        r == distinct_backends(*a, *b),
{
    !same_text(a.name.as_str(), b.name.as_str()) && !same_text(
        a.raw_host.as_str(),
        b.raw_host.as_str(),
    ) && !same_text(a.html_host.as_str(), b.html_host.as_str()) && !same_text(
        a.raw_host.as_str(),
        b.html_host.as_str(),
    ) && !same_text(a.html_host.as_str(), b.raw_host.as_str())
}

/// Tells whether a registry is well formed: unique names, unshared hosts.
pub fn registry_is_wf(bins: &Vec<BackendInfo>) -> (r: bool)
    ensures
        r == registry_wf(bins@),
{
    let mut i: usize = 0;
    while i < bins.len()
        invariant
            i <= bins@.len(),
            forall|x: int, y: int|
                0 <= x < i && 0 <= y < bins@.len() && x != y ==> distinct_backends(
                    #[trigger] bins@[x],
                    #[trigger] bins@[y],
                ),
        decreases bins@.len() - i,
    {
        let mut j: usize = 0;
        while j < bins.len()
            invariant
                i < bins@.len(),
                j <= bins@.len(),
                forall|x: int, y: int|
                    0 <= x < i && 0 <= y < bins@.len() && x != y ==> distinct_backends(
                        #[trigger] bins@[x],
                        #[trigger] bins@[y],
                    ),
                forall|y: int| 0 <= y < j && y != i ==> distinct_backends(bins@[i as int], #[trigger] bins@[y]),
            decreases bins@.len() - j,
        {
            if j != i && !exec_distinct(&bins[i], &bins[j]) {
                assert(!distinct_backends(bins@[i as int], bins@[j as int]));
                return false;
            }
            j = j + 1;
        }
        i = i + 1;
    }
    true
}

/// The backend name to use: the explicit one when given, else the default;
/// none, or a blank one, means no backend was specified.
pub open spec fn chosen_name(explicit: Option<Seq<char>>, default: Option<Seq<char>>) -> Option<
    Seq<char>,
> {
    let n = if explicit is Some { explicit } else { default };
    match n {
        Some(s) => if is_blank(s) {
            None
        } else {
            Some(s)
        },
        None => None,
    }
}

/// Index of the first backend registered under `name`.
pub open spec fn first_named(bins: Seq<BackendInfo>, name: Seq<char>, k: int) -> bool {
    &&& 0 <= k < bins.len()
    &&& bins[k].name@ == name
    &&& forall|j: int| 0 <= j < k ==> bins[j].name@ != name
}

pub open spec fn first_raw(bins: Seq<BackendInfo>, host: Seq<char>, k: int) -> bool {
    &&& 0 <= k < bins.len()
    &&& bins[k].raw_host@ == host
    &&& forall|j: int| 0 <= j < k ==> bins[j].raw_host@ != host
}

pub open spec fn first_html(bins: Seq<BackendInfo>, host: Seq<char>, k: int) -> bool {
    &&& 0 <= k < bins.len()
    &&& bins[k].html_host@ == host
    &&& forall|j: int| 0 <= j < k ==> bins[j].html_host@ != host
}

pub open spec fn has_raw(bins: Seq<BackendInfo>, host: Seq<char>) -> bool {
    exists|j: int| 0 <= j < bins.len() && (#[trigger] bins[j]).raw_host@ == host
}

pub open spec fn has_html(bins: Seq<BackendInfo>, host: Seq<char>) -> bool {
    exists|j: int| 0 <= j < bins.len() && (#[trigger] bins[j]).html_host@ == host
}

/// Which host of the backend a download URL named.
#[derive(Debug, Clone, Copy, PartialEq, Eq, Structural)]
pub enum HostKind {
    Raw,
    Html,
}

/// Picks the name of the backend to upload to.
pub fn bin_name(explicit: Option<&str>, default: Option<&str>) -> (r: Result<String, Error>)
    ensures
        match chosen_name(
            match explicit {
                Some(s) => Some(s@),
                None => None,
            },
            match default {
                Some(s) => Some(s@),
                None => None,
            },
        ) {
            Some(n) => r matches Ok(s) && s@ == n,
            None => r == Err::<String, Error>(Error::Usage(Usage::NoBackend)),
        },
{
    let n = match explicit {
        Some(s) => Some(s),
        None => default,
    };
    match n {
        Some(s) => if blank(s) {
            Err(Error::Usage(Usage::NoBackend))
        } else {
            Ok(s.to_owned())
        },
        None => Err(Error::Usage(Usage::NoBackend)),
    }
}

/// Finds the first backend registered under `name`.
pub fn find_backend(bins: &Vec<BackendInfo>, name: &str) -> (r: Option<usize>)
    ensures
        r matches Some(k) ==> first_named(bins@, name@, k as int),
        r is None ==> forall|j: int| 0 <= j < bins@.len() ==> (#[trigger] bins@[j]).name@ != name@,
{
    let mut i: usize = 0;
    while i < bins.len()
        invariant
            i <= bins@.len(),
            forall|j: int| 0 <= j < i ==> (#[trigger] bins@[j]).name@ != name@,
        decreases bins@.len() - i,
    {
        if same_text(bins[i].name.as_str(), name) {
            return Some(i);
        }
        i = i + 1;
    }
    None
}

/// Chooses the upload backend: by explicit name, else by the configured
/// default; fails when neither names one, or when none is registered so.
pub fn select_backend(bins: &Vec<BackendInfo>, explicit: Option<&str>, default: Option<&str>) -> (r:
    Result<usize, Error>)
    ensures
        match chosen_name(
            match explicit {
                Some(s) => Some(s@),
                None => None,
            },
            match default {
                Some(s) => Some(s@),
                None => None,
            },
        ) {
            None => r == Err::<usize, Error>(Error::Usage(Usage::NoBackend)),
            Some(n) => {
                &&& r matches Ok(k) ==> first_named(bins@, n, k as int)
                &&& r is Err ==> (forall|j: int|
                    0 <= j < bins@.len() ==> (#[trigger] bins@[j]).name@ != n)
                &&& r is Err ==> (r matches Err(Error::UnknownBackend(s)) && s@ == n)
            },
        },
{
    let name = bin_name(explicit, default)?;
    match find_backend(bins, name.as_str()) {
        Some(k) => Ok(k),
        None => Err(Error::UnknownBackend(name)),
    }
}

fn find_raw(bins: &Vec<BackendInfo>, host: &str) -> (r: Option<usize>)
    ensures
        r matches Some(k) ==> first_raw(bins@, host@, k as int),
        r is None ==> !has_raw(bins@, host@),
{
    let mut i: usize = 0;
    while i < bins.len()
        invariant
            i <= bins@.len(),
            forall|j: int| 0 <= j < i ==> (#[trigger] bins@[j]).raw_host@ != host@,
        decreases bins@.len() - i,
    {
        if same_text(bins[i].raw_host.as_str(), host) {
            return Some(i);
        }
        i = i + 1;
    }
    None
}

fn find_html(bins: &Vec<BackendInfo>, host: &str) -> (r: Option<usize>)
    ensures
        r matches Some(k) ==> first_html(bins@, host@, k as int),
        r is None ==> !has_html(bins@, host@),
{
    let mut i: usize = 0;
    while i < bins.len()
        invariant
            i <= bins@.len(),
            forall|j: int| 0 <= j < i ==> (#[trigger] bins@[j]).html_host@ != host@,
        decreases bins@.len() - i,
    {
        if same_text(bins[i].html_host.as_str(), host) {
            return Some(i);
        }
        i = i + 1;
    }
    None
}

/// Finds the backend that a download URL's host belongs to: the first whose
/// raw host matches, else the first whose html host matches.
pub fn route_host(bins: &Vec<BackendInfo>, host: &str) -> (r: Result<(usize, HostKind), Error>)
    ensures
        has_raw(bins@, host@) ==> (r matches Ok((k, kind)) && kind == HostKind::Raw && first_raw(
            bins@,
            host@,
            k as int,
        )),
        !has_raw(bins@, host@) && has_html(bins@, host@) ==> (r matches Ok((k, kind)) && kind
            == HostKind::Html && first_html(bins@, host@, k as int)),
        !has_raw(bins@, host@) && !has_html(bins@, host@) ==> (r matches Err(Error::UnknownHost(h))
            && h@ == host@),
{
    match find_raw(bins, host) {
        Some(k) => Ok((k, HostKind::Raw)),
        None => match find_html(bins, host) {
            Some(k) => Ok((k, HostKind::Html)),
            None => Err(Error::UnknownHost(host.to_owned())),
        },
    }
}

/// The serialization and host of the absolute URL that a text parses as,
/// or none when it is not one.
pub uninterp spec fn url_parts_of(s: Seq<char>) -> Option<(Seq<char>, Option<Seq<char>>)>;

pub open spec fn opt_view(o: Option<String>) -> Option<Seq<char>> {
    match o {
        Some(s) => Some(s@),
        None => None,
    }
}

pub open spec fn url_view(o: Option<(String, Option<String>)>) -> Option<(Seq<char>, Option<Seq<char>>)> {
    match o {
        Some((u, h)) => Some((u@, opt_view(h))),
        None => None,
    }
}

/// Relies on `url::Url::parse`, with `Url::as_str` and `Url::host_str`: a
/// text parses as an absolute URL or not, and the outcome, the serialized URL
/// and its host, depends on the text alone.
#[verifier::external_body]
fn parse_url(s: &str) -> (r: Option<(String, Option<String>)>)
    ensures
        url_parts_of(s@) == url_view(r),
{
    url::Url::parse(s).ok().map(|u| (u.as_str().to_string(), u.host_str().map(|h| h.to_string())))
}

/// What one invocation does.
#[derive(Debug)]
pub enum Mode {
    /// Enumerate the registered backends.
    ListBins,
    /// Fetch a paste: the parsed URL, its host, and the file names that
    /// follow the URL among the inputs, if any.
    Download { url: String, host: Option<String>, names: Option<Vec<String>> },
    /// Create a paste from the inputs, a message or standard input.
    Upload,
}

pub open spec fn views(v: Seq<String>) -> Seq<Seq<char>> {
    v.map_values(|s: String| s@)
}

/// The mode an invocation is in, given the outcome of reading its first
/// input as a URL: listing wins; a first input that is an absolute URL
/// downloads, the other inputs naming files; else a range is refused and the
/// invocation uploads.
pub open spec fn mode_ok(
    list_bins: bool,
    inputs: Option<Seq<Seq<char>>>,
    first_url: Option<(Seq<char>, Option<Seq<char>>)>,
    range_given: bool,
    r: Result<Mode, Error>,
) -> bool {
    if list_bins {
        r matches Ok(Mode::ListBins)
    } else if inputs matches Some(is) && is.len() > 0 && first_url is Some {
        r matches Ok(Mode::Download { url, host, names }) && url@ == first_url->Some_0.0
            && opt_view(host) == first_url->Some_0.1 && (if inputs->Some_0.len() > 1 {
            names matches Some(ns) && views(ns@) == inputs->Some_0.subrange(
                1,
                inputs->Some_0.len() as int,
            )
        } else {
            names is None
        })
    } else if range_given {
        r == Err::<Mode, Error>(Error::Usage(Usage::RangeWithUpload))
    } else {
        r matches Ok(Mode::Upload)
    }
}

/// Decides the mode of an invocation from its flags, its inputs and what
/// reading the first input as a URL gave.
pub fn decide_mode_with(
    list_bins: bool,
    inputs: Option<&Vec<String>>,
    first_url: Option<(String, Option<String>)>,
    range_given: bool,
) -> (r: Result<Mode, Error>)
    ensures
        mode_ok(
            list_bins,
            match inputs {
                Some(v) => Some(views(v@)),
                None => None,
            },
            url_view(first_url),
            range_given,
            r,
        ),
{
    if list_bins {
        return Ok(Mode::ListBins);
    }
    if let Some(is) = inputs {
        if is.len() > 0 {
            if let Some((url, host)) = first_url {
                let names = if is.len() > 1 {
                    let mut ns: Vec<String> = Vec::new();
                    let mut i: usize = 1;
                    while i < is.len()
                        invariant
                            1 <= i <= is@.len(),
                            views(ns@) == views(is@).subrange(1, i as int),
                        decreases is@.len() - i,
                    {
                        let ghost before = ns@;
                        ns.push(is[i].clone());
                        assert(views(ns@) =~= views(is@).subrange(1, i + 1)) by {
                            assert(views(ns@) =~= views(before).push(is@[i as int]@));
                        }
                        i = i + 1;
                    }
                    Some(ns)
                } else {
                    None
                };
                return Ok(Mode::Download { url, host, names });
            }
        }
    }
    if range_given {
        Err(Error::Usage(Usage::RangeWithUpload))
    } else {
        Ok(Mode::Upload)
    }
}

/// Decides the mode of an invocation: reads the first input, if any, as a URL.
pub fn decide_mode(list_bins: bool, inputs: Option<&Vec<String>>, range_given: bool) -> (r: Result<
    Mode,
    Error,
>)
    ensures
        mode_ok(
            list_bins,
            match inputs {
                Some(v) => Some(views(v@)),
                None => None,
            },
            match inputs {
                Some(v) => if v@.len() > 0 {
                    url_parts_of(v@[0]@)
                } else {
                    None
                },
                None => None,
            },
            range_given,
            r,
        ),
{
    let first_url = match inputs {
        Some(is) => if is.len() > 0 {
            parse_url(is[0].as_str())
        } else {
            None
        },
        None => None,
    };
    let ghost fv = url_view(first_url);
    let r = decide_mode_with(list_bins, inputs, first_url, range_given);
    assert(mode_ok(
        list_bins,
        match inputs {
            Some(v) => Some(views(v@)),
            None => None,
        },
        fv,
        range_given,
        r,
    ));
    r
}

/// Refuses invocations that lack a backend or combine listing with one.
pub fn check_invocation(list_bins: bool, bin_given: bool, default_given: bool) -> (r: Result<
    (),
    Error,
>)
    ensures
        list_bins && bin_given ==> r == Err::<(), Error>(Error::Usage(Usage::ListWithBackend)),
        !list_bins && !bin_given && !default_given ==> r == Err::<(), Error>(
            Error::Usage(Usage::NoBackend),
        ),
        !(list_bins && bin_given) && (list_bins || bin_given || default_given) ==> r is Ok,
{
    if list_bins && bin_given {
        Err(Error::Usage(Usage::ListWithBackend))
    } else if !list_bins && !bin_given && !default_given {
        Err(Error::Usage(Usage::NoBackend))
    } else {
        Ok(())
    }
}

/// Where a download goes: the backend, and which of its hosts the URL named.
#[derive(Debug, Clone, Copy, PartialEq, Eq, Structural)]
pub struct DownloadPlan {
    pub backend: usize,
    pub kind: HostKind,
}

/// Plans a download: names and a range together are refused, then the URL
/// must have a host, and some backend must use it.
pub fn plan_download(bins: &Vec<BackendInfo>, host: Option<&str>, names_given: bool, range_given: bool) -> (r:
    Result<DownloadPlan, Error>)
    ensures
        names_given && range_given ==> r == Err::<DownloadPlan, Error>(
            Error::Usage(Usage::RangeWithNames),
        ),
        !(names_given && range_given) ==> match host {
            None => r == Err::<DownloadPlan, Error>(Error::MissingHost),
            Some(h) => {
                &&& has_raw(bins@, h@) ==> (r matches Ok(p) && p.kind == HostKind::Raw
                    && first_raw(bins@, h@, p.backend as int))
                &&& !has_raw(bins@, h@) && has_html(bins@, h@) ==> (r matches Ok(p) && p.kind
                    == HostKind::Html && first_html(bins@, h@, p.backend as int))
                &&& !has_raw(bins@, h@) && !has_html(bins@, h@) ==> (r matches Err(
                    Error::UnknownHost(e),
                ) && e@ == h@)
            },
        },
{
    if names_given && range_given {
        return Err(Error::Usage(Usage::RangeWithNames));
    }
    let h = match host {
        Some(h) => h,
        None => {
            return Err(Error::MissingHost);
        },
    };
    let (backend, kind) = route_host(bins, h)?;
    Ok(DownloadPlan { backend, kind })
}

/// In a well-formed registry, a host that is some backend's raw host
/// routes to exactly that backend, as a raw URL.
pub proof fn law_raw_host_routes_to_its_backend(bins: Seq<BackendInfo>, k: int)
    requires
        0 <= k < bins.len(),
        registry_wf(bins),
    ensures
        has_raw(bins, bins[k].raw_host@),
        first_raw(bins, bins[k].raw_host@, k),
        forall|m: int| first_raw(bins, bins[k].raw_host@, m) ==> m == k,
{
    assert(bins[k].raw_host@ == bins[k].raw_host@);
    assert forall|j: int| 0 <= j < k implies bins[j].raw_host@ != bins[k].raw_host@ by {
        assert(distinct_backends(bins[j], bins[k]));
    }
    assert forall|m: int| first_raw(bins, bins[k].raw_host@, m) implies m == k by {
        if m != k {
            assert(distinct_backends(bins[m], bins[k]));
        }
    }
}

/// In a well-formed registry, a host that is some backend's html host, and
/// no backend's raw host, routes to exactly that backend, as an html URL.
pub proof fn law_html_host_routes_to_its_backend(bins: Seq<BackendInfo>, k: int)
    requires
        0 <= k < bins.len(),
        registry_wf(bins),
        bins[k].raw_host@ != bins[k].html_host@,
    ensures
        !has_raw(bins, bins[k].html_host@),
        has_html(bins, bins[k].html_host@),
        first_html(bins, bins[k].html_host@, k),
        forall|m: int| first_html(bins, bins[k].html_host@, m) ==> m == k,
{
    let h = bins[k].html_host@;
    assert(bins[k].html_host@ == h);
    assert forall|j: int| 0 <= j < bins.len() implies (#[trigger] bins[j]).raw_host@ != h by {
        if j != k {
            assert(distinct_backends(bins[j], bins[k]));
        }
    }
    assert forall|j: int| 0 <= j < k implies bins[j].html_host@ != h by {
        assert(distinct_backends(bins[j], bins[k]));
    }
    assert forall|m: int| first_html(bins, h, m) implies m == k by {
        if m != k {
            assert(distinct_backends(bins[m], bins[k]));
        }
    }
}

/// A host that neither a raw nor an html host of any backend names is
/// unknown to the routing.
pub proof fn law_unregistered_host_is_unknown(bins: Seq<BackendInfo>, host: Seq<char>)
    requires
        forall|j: int|
            0 <= j < bins.len() ==> (#[trigger] bins[j]).raw_host@ != host && bins[j].html_host@
                != host,
    ensures
        !has_raw(bins, host),
        !has_html(bins, host),
{
}

} // verus!
