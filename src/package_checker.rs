//! Finding the latest log of a package in a directory listing, and turning
//! the classification of that log into the package's result.
use crate::log_analysis::{analyze_log, classify, LogAnalysisResult, LogOutcome};
use crate::text::{
    chars_of, ends_with, lemma_lex_irreflexive, lemma_lex_transitive, lex_less, lex_lt, matches_at,
};
use vstd::prelude::*;
use vstd::string::StringExecFns;

verus! {

broadcast use {
    vstd::string::group_string_axioms,
    vstd::seq_lib::group_to_multiset_ensures,
    vstd::seq_lib::to_multiset_insert,
};

/// The `href` attribute of each anchor element of an HTML document, in the
/// order in which the parser created the elements (`None` for an anchor
/// without one).
pub uninterp spec fn anchor_hrefs(html: Seq<char>) -> Seq<Option<Seq<char>>>;

/// Relies on scraper's `Html::parse_document`, `Selector::parse`, `Html::select`
/// and `ElementRef::attr`: the `href` of every `a` element, in the order of
/// [`anchor_hrefs`]. The selector `a` is a plain type selector, which
/// `Selector::parse` accepts (scraper's own code unwraps that very call).
#[verifier::external_body]
fn anchor_href_list(html: &str) -> (r: Option<Vec<Option<String>>>)
    ensures
        r is Some,
        r matches Some(v) ==> v@.map_values(|h: Option<String>| opt_view(h)) == anchor_hrefs(html@),
{
    let doc = scraper::Html::parse_document(html);
    let anchor = scraper::Selector::parse("a").ok()?;
    Some(doc.select(&anchor).map(|a| a.attr("href").map(|h| h.to_string())).collect())
}

/// An optional string as an optional character sequence.
pub open spec fn opt_view(h: Option<String>) -> Option<Seq<char>> {
    match h {
        Some(s) => Some(s@),
        None => None,
    }
}

/// The text of the URL that `href` denotes, resolved against the URL `base`;
/// `None` where either does not parse.
pub uninterp spec fn joined_url(base: Seq<char>, href: Seq<char>) -> Option<Seq<char>>;

/// Relies on url's `Url::parse` (of `base`), `Url::join` (RFC 3986 reference
/// resolution of `href` against it) and the text of the joined URL.
#[verifier::external_body]
fn resolve_href(base: &str, href: &str) -> (r: Option<String>)
    ensures
        opt_view(r) == joined_url(base@, href@),
{
    let base = url::Url::parse(base).ok()?;
    base.join(href).ok().map(|u| u.to_string())
}

/// The suffix that marks a link to a log file.
pub const LOG_SUFFIX: &'static str = ".log";

/// The resolved URLs of the links among `hrefs` that end in [`LOG_SUFFIX`], in
/// their order; a link that does not resolve is left out.
pub open spec fn log_urls_of(base: Seq<char>, hrefs: Seq<Option<Seq<char>>>) -> Seq<Seq<char>>
    decreases hrefs.len(),
{
    if hrefs.len() == 0 {
        Seq::empty()
    } else {
        let rest = log_urls_of(base, hrefs.drop_last());
        match hrefs.last() {
            Some(h) => if ends_with(h, LOG_SUFFIX@) {
                match joined_url(base, h) {
                    Some(u) => rest.push(u),
                    None => rest,
                }
            } else {
                rest
            },
            None => rest,
        }
    }
}

/// The log URLs that a directory listing links to, resolved against its URL.
pub open spec fn listed_logs(html: Seq<char>, list_url: Seq<char>) -> Seq<Seq<char>> {
    log_urls_of(list_url, anchor_hrefs(html))
}

/// Whether no element comes before a greater one.
pub open spec fn sorted_desc(s: Seq<Seq<char>>) -> bool {
    forall|i: int, j: int| 0 <= i < j < s.len() ==> !lex_lt(#[trigger] s[i], #[trigger] s[j])
}

pub open spec fn string_views(v: Seq<String>) -> Seq<Seq<char>> {
    v.map_values(|s: String| s@)
}

pub open spec fn char_views(v: Seq<Vec<char>>) -> Seq<Seq<char>> {
    v.map_values(|s: Vec<char>| s@)
}

/// Why a listing could not be read.
#[derive(Debug, PartialEq, Eq)]
pub enum LocateError {
    /// The HTML parser refused the anchor selector.
    SelectorRefused,
}

/// Puts `u` into `urls` (with its characters into `keys` at the same place)
/// after every element that is not smaller than it.
fn insert_descending(urls: &mut Vec<String>, keys: &mut Vec<Vec<char>>, u: String)
    requires
        string_views(old(urls)@) == char_views(old(keys)@),
        sorted_desc(char_views(old(keys)@)),
    ensures
        string_views(final(urls)@) == char_views(final(keys)@),
        sorted_desc(char_views(final(keys)@)),
        char_views(final(keys)@).to_multiset() == char_views(old(keys)@).to_multiset().insert(u@),
{
    let key = chars_of(u.as_str());
    let ghost s = char_views(keys@);
    let mut p: usize = 0;
    while p < keys.len() && !lex_less(&keys[p], &key)
        invariant
            p <= keys@.len(),
            s == char_views(keys@),
            forall|q: int| 0 <= q < p ==> !lex_lt(#[trigger] s[q], key@),
        decreases keys@.len() - p,
    {
        p = p + 1;
    }
    let ghost su = string_views(urls@);
    assert(su.len() == urls@.len());
    keys.insert(p, key);
    urls.insert(p, u);
    proof {
        assert(char_views(keys@) =~= s.insert(p as int, key@));
        assert(string_views(urls@) =~= su.insert(p as int, key@));
        let t = s.insert(p as int, key@);
        assert forall|i: int, j: int| 0 <= i < j < t.len() implies !lex_lt(
            #[trigger] t[i],
            #[trigger] t[j],
        ) by {
            if j < p {
            } else if i < p && j == p {
            } else if i < p && j > p {
                assert(t[j] == s[j - 1]);
            } else if i == p {
                assert(t[j] == s[j - 1]);
                assert(lex_lt(s[p as int], key@));
                if lex_lt(key@, s[j - 1]) {
                    if j - 1 == p {
                        lemma_lex_transitive(key@, s[p as int], key@);
                        lemma_lex_irreflexive(key@);
                    } else {
                        lemma_lex_transitive(s[p as int], key@, s[j - 1]);
                    }
                }
            } else {
                assert(t[i] == s[i - 1]);
                assert(t[j] == s[j - 1]);
            }
        }
    }
}

/// The URLs of the logs that a directory listing links to, resolved against the
/// listing's own URL, from the greatest (the latest) to the smallest. A listing
/// without logs gives an empty list; a link that does not resolve is left out.
pub fn get_log_urls(raw_log_urls: &str, list_url: &str) -> (r: Result<Vec<String>, LocateError>)
    ensures
        r is Ok,
        r matches Ok(v) ==> sorted_desc(string_views(v@)) && string_views(v@).to_multiset()
            == listed_logs(raw_log_urls@, list_url@).to_multiset(),
        r matches Ok(v) ==> v@.len() == listed_logs(raw_log_urls@, list_url@).len(),
        r matches Ok(v) ==> (v@.len() > 0 ==> listed_logs(raw_log_urls@, list_url@).contains(
            v@[0]@,
        ) && forall|u: Seq<char>|
            listed_logs(raw_log_urls@, list_url@).contains(u) ==> !lex_lt(v@[0]@, u)),
{
    let hrefs = match anchor_href_list(raw_log_urls) {
        Some(h) => h,
        None => {
            return Err(LocateError::SelectorRefused);
        },
    };
    let ghost all = anchor_hrefs(raw_log_urls@);
    let suffix = chars_of(LOG_SUFFIX);
    let mut urls: Vec<String> = Vec::new();
    let mut keys: Vec<Vec<char>> = Vec::new();
    let n = hrefs.len();
    let mut k: usize = 0;
    proof {
        assert(all.take(0) =~= Seq::<Option<Seq<char>>>::empty());
        assert(string_views(urls@) =~= char_views(keys@));
        assert(log_urls_of(list_url@, all.take(0)) =~= char_views(keys@));
    }
    while k < n
        invariant
            n == hrefs@.len(),
            k <= n,
            hrefs@.map_values(|h: Option<String>| opt_view(h)) == all,
            suffix@ == LOG_SUFFIX@,
            string_views(urls@) == char_views(keys@),
            sorted_desc(char_views(keys@)),
            char_views(keys@).to_multiset() == log_urls_of(list_url@, all.take(k as int)).to_multiset(),
        decreases n - k,
    {
        proof {
            assert(all.take(k + 1).drop_last() =~= all.take(k as int));
            assert(all.take(k + 1).last() == opt_view(hrefs@[k as int]));
        }
        match &hrefs[k] {
            Some(h) => {
                let hc = chars_of(h.as_str());
                let m = suffix.len();
                if hc.len() >= m && matches_at(&hc, hc.len() - m, &suffix) {
                    proof {
                        assert(hc@.skip(hc@.len() - m) =~= hc@.subrange(hc@.len() - m, hc@.len() as int));
                    }
                    match resolve_href(list_url, h.as_str()) {
                        Some(u) => {
                            insert_descending(&mut urls, &mut keys, u);
                        },
                        None => {},
                    }
                } else {
                    proof {
                        if hc@.len() >= m {
                            assert(hc@.skip(hc@.len() - m) =~= hc@.subrange(hc@.len() - m, hc@.len() as int));
                        }
                    }
                }
            },
            None => {},
        }
        k = k + 1;
    }
    proof {
        assert(all.take(n as int) =~= all);
        let sv = string_views(urls@);
        let listed = listed_logs(raw_log_urls@, list_url@);
        assert(sv.len() == sv.to_multiset().len());
        assert(listed.len() == listed.to_multiset().len());
        if urls@.len() > 0 {
            lemma_first_is_greatest(sv, listed);
            assert(sv[0] == urls@[0]@);
        }
    }
    Ok(urls)
}

/// A listing none of whose anchors links to a name ending in [`LOG_SUFFIX`]
/// lists no log.
pub proof fn lemma_no_log_anchor_no_logs(html: Seq<char>, list_url: Seq<char>)
    requires
        forall|i: int|
            0 <= i < anchor_hrefs(html).len() ==> !(#[trigger] anchor_hrefs(html)[i] matches Some(
                h,
            ) && ends_with(h, LOG_SUFFIX@)),
    ensures
        listed_logs(html, list_url).len() == 0,
{
    lemma_no_log_links(list_url, anchor_hrefs(html));
}

proof fn lemma_no_log_links(base: Seq<char>, hrefs: Seq<Option<Seq<char>>>)
    requires
        forall|i: int|
            0 <= i < hrefs.len() ==> !(#[trigger] hrefs[i] matches Some(h) && ends_with(
                h,
                LOG_SUFFIX@,
            )),
    ensures
        log_urls_of(base, hrefs).len() == 0,
    decreases hrefs.len(),
{
    if hrefs.len() > 0 {
        assert(hrefs.last() == hrefs[hrefs.len() - 1]);
        lemma_no_log_links(base, hrefs.drop_last());
    }
}

/// In a sequence sorted from greatest to smallest, the first element is not
/// smaller than any element of a sequence with the same elements.
pub proof fn lemma_first_is_greatest(s: Seq<Seq<char>>, t: Seq<Seq<char>>)
    requires
        sorted_desc(s),
        s.to_multiset() == t.to_multiset(),
        s.len() > 0,
    ensures
        t.contains(s[0]),
        forall|u: Seq<char>| t.contains(u) ==> !lex_lt(s[0], u),
{
    broadcast use vstd::seq_lib::group_seq_properties;

    assert(s.to_multiset().count(s[0]) > 0);
    assert forall|u: Seq<char>| t.contains(u) implies !lex_lt(s[0], u) by {
        assert(t.to_multiset().count(u) > 0);
        assert(s.contains(u));
        let k = choose|k: int| 0 <= k < s.len() && s[k] == u;
        if k == 0 {
            lemma_lex_irreflexive(u);
        } else {
            assert(!lex_lt(s[0], s[k]));
        }
    }
}

/// The result of checking one package.
#[derive(Debug)]
pub enum PackageCheckResult {
    /// The latest log reports success; `pr_url` links the pull request it opened.
    Success { log_url: String, pr_url: Option<String> },
    /// The latest log reports a failure.
    Failure { log_url: String },
    /// The listing at `log_list_url` holds no log.
    LogNotFound { log_list_url: String },
    /// The package has no update mechanism.
    Skip { log_url: String },
}

/// The mathematical value of a [`PackageCheckResult`].
pub enum PackageOutcome {
    Success { log_url: Seq<char>, pr_url: Option<Seq<char>> },
    Failure { log_url: Seq<char> },
    LogNotFound { log_list_url: Seq<char> },
    Skip { log_url: Seq<char> },
}

impl View for PackageCheckResult {
    type V = PackageOutcome;

    open spec fn view(&self) -> PackageOutcome {
        match self {
            PackageCheckResult::Success { log_url, pr_url } => PackageOutcome::Success {
                log_url: log_url@,
                pr_url: opt_view(*pr_url),
            },
            PackageCheckResult::Failure { log_url } => PackageOutcome::Failure { log_url: log_url@ },
            PackageCheckResult::LogNotFound { log_list_url } => PackageOutcome::LogNotFound {
                log_list_url: log_list_url@,
            },
            PackageCheckResult::Skip { log_url } => PackageOutcome::Skip { log_url: log_url@ },
        }
    }
}

/// Where the update logs of all packages are listed, one directory each.
pub const LOG_HOST: &'static str = "https://nixpkgs-update-logs.nix-community.org/";

/// The URL of the directory that lists the logs of package `pname`.
pub fn log_list_url(pname: &str) -> (r: String)
    ensures
        r@ == LOG_HOST@ + pname@ + "/"@,
{
    let mut r = LOG_HOST.to_owned();
    r.append(pname);
    r.append("/");
    r
}

/// The result for a package whose latest log at `log_url` has outcome `o`.
pub open spec fn package_outcome(log_url: Seq<char>, o: LogOutcome) -> PackageOutcome {
    match o {
        LogOutcome::Success { pr_url } => PackageOutcome::Success { log_url, pr_url },
        LogOutcome::Failure => PackageOutcome::Failure { log_url },
        LogOutcome::NoUpdater => PackageOutcome::Skip { log_url },
    }
}

/// The result for a package whose latest log, at `log_url`, reads `log`.
pub fn result_for_log(log_url: String, log: &str) -> (r: PackageCheckResult)
    ensures
        r@ == package_outcome(log_url@, classify(log@)),
{
    match analyze_log(log) {
        LogAnalysisResult::Success { pr_url } => PackageCheckResult::Success { log_url, pr_url },
        LogAnalysisResult::Failure => PackageCheckResult::Failure { log_url },
        LogAnalysisResult::NoUpdater => PackageCheckResult::Skip { log_url },
    }
}

/// What a check does once the listing of a package's logs has been read.
pub enum ListingStep {
    /// Fetch the log at `log_url` and classify it.
    FetchLog { log_url: String },
    /// The check is over.
    Finished { result: PackageCheckResult },
}

/// Decides, from the listing at `list_url` that reads `raw_listing`, what the
/// check of a package does next: fetch the latest log, or report that there
/// is none.
pub fn after_listing(list_url: &str, raw_listing: &str) -> (r: Result<ListingStep, LocateError>)
    ensures
        r is Ok,
        r matches Ok(ListingStep::FetchLog { log_url }) ==> listed_logs(
            raw_listing@,
            list_url@,
        ).contains(log_url@) && forall|u: Seq<char>|
            listed_logs(raw_listing@, list_url@).contains(u) ==> !lex_lt(log_url@, u),
        r matches Ok(ListingStep::Finished { result }) ==> listed_logs(
            raw_listing@,
            list_url@,
        ).len() == 0 && result@ == (PackageOutcome::LogNotFound { log_list_url: list_url@ }),
        r matches Ok(ListingStep::FetchLog { .. }) <==> listed_logs(raw_listing@, list_url@).len()
            > 0,
{
    let urls = match get_log_urls(raw_listing, list_url) {
        Ok(v) => v,
        Err(e) => {
            return Err(e);
        },
    };
    if urls.len() == 0 {
        let log_list_url = list_url.to_owned();
        return Ok(ListingStep::Finished { result: PackageCheckResult::LogNotFound { log_list_url } });
    }
    let log_url = urls[0].clone();
    Ok(ListingStep::FetchLog { log_url })
}

/// The one-line report of a result, as printed for its package.
pub open spec fn message_of(o: PackageOutcome) -> Seq<char> {
    match o {
        PackageOutcome::Success { log_url, pr_url } => match pr_url {
            Some(pr) => "[UPDATED]: log="@ + log_url + ", pr="@ + pr,
            None => "[AS-IS]: log="@ + log_url,
        },
        PackageOutcome::Failure { log_url } => "\x1b[31m[FAILURE]\x1b[0m: log="@ + log_url,
        PackageOutcome::LogNotFound { log_list_url } => "\x1b[33m[WARN]\x1b[0m: No logs found at "@
            + log_list_url,
        PackageOutcome::Skip { log_url } => "\x1b[33m[WARN]\x1b[0m: Skipped log="@ + log_url,
    }
}

impl PackageCheckResult {
    /// The one-line report of this result, with terminal colours.
    pub fn message(&self) -> (r: String)
        ensures
            r@ == message_of(self@),
    {
        match self {
            PackageCheckResult::Success { log_url, pr_url } => match pr_url {
                Some(pr) => {
                    let mut r = "[UPDATED]: log=".to_owned();
                    r.append(log_url.as_str());
                    r.append(", pr=");
                    r.append(pr.as_str());
                    r
                },
                None => {
                    let mut r = "[AS-IS]: log=".to_owned();
                    r.append(log_url.as_str());
                    r
                },
            },
            PackageCheckResult::Failure { log_url } => {
                let mut r = "\x1b[31m[FAILURE]\x1b[0m: log=".to_owned();
                r.append(log_url.as_str());
                r
            },
            PackageCheckResult::LogNotFound { log_list_url } => {
                let mut r = "\x1b[33m[WARN]\x1b[0m: No logs found at ".to_owned();
                r.append(log_list_url.as_str());
                r
            },
            PackageCheckResult::Skip { log_url } => {
                let mut r = "\x1b[33m[WARN]\x1b[0m: Skipped log=".to_owned();
                r.append(log_url.as_str());
                r
            },
        }
    }

    /// Whether this result is a failed update.
    pub fn is_failure(&self) -> (r: bool)
        ensures
            r == (self@ is Failure),
    {
        match self {
            PackageCheckResult::Failure { .. } => true,
            _ => false,
        }
    }
}

/// Whether a run over several packages fails: some check ended in an error
/// (`None`) or in a failed update.
pub open spec fn run_fails(results: Seq<Option<PackageOutcome>>) -> bool {
    exists|i: int|
        0 <= i < results.len() && match #[trigger] results[i] {
            None => true,
            Some(o) => o is Failure,
        }
}

pub open spec fn outcome_views(results: Seq<Option<PackageCheckResult>>) -> Seq<Option<PackageOutcome>> {
    results.map_values(
        |o: Option<PackageCheckResult>|
            match o {
                Some(p) => Some(p@),
                None => None,
            },
    )
}

/// Whether the run whose checks ended in `results` (`None` for an error) fails.
pub fn run_failed(results: &Vec<Option<PackageCheckResult>>) -> (r: bool)
    ensures
        r == run_fails(outcome_views(results@)),
{
    let ghost views = outcome_views(results@);
    let n = results.len();
    let mut k: usize = 0;
    while k < n
        invariant
            n == results@.len(),
            views == outcome_views(results@),
            k <= n,
            forall|i: int|
                0 <= i < k ==> match #[trigger] views[i] {
                    None => false,
                    Some(o) => !(o is Failure),
                },
        decreases n - k,
    {
        let failed = match &results[k] {
            None => true,
            Some(p) => p.is_failure(),
        };
        if failed {
            proof {
                assert(match views[k as int] {
                    None => true,
                    Some(o) => o is Failure,
                });
            }
            return true;
        }
        k = k + 1;
    }
    false
}

} // verus!
