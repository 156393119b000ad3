//! Classification of a single update log into an outcome.
use crate::text::{
    chars_of, contains_chars, contains_seq, span_equals, span_starts_with, starts_with,
};
use vstd::prelude::*;
use vstd::string::{StrSliceExecFns, StringExecFns};

verus! {

broadcast use vstd::string::group_string_axioms;

/// The outcome of one update run, as read from its log.
#[derive(Debug)]
pub enum LogAnalysisResult {
    /// The update went through, or needed no change; `pr_url` links the pull
    /// request that it opened, where the log names one.
    Success { pr_url: Option<String> },
    /// The update failed, or the log gave no sign of success.
    Failure,
    /// The package has no mechanism that could update it.
    NoUpdater,
}

/// The mathematical value of a [`LogAnalysisResult`].
pub enum LogOutcome {
    Success { pr_url: Option<Seq<char>> },
    Failure,
    NoUpdater,
}

impl View for LogAnalysisResult {
    type V = LogOutcome;

    open spec fn view(&self) -> LogOutcome {
        match self {
            LogAnalysisResult::Success { pr_url } => LogOutcome::Success {
                pr_url: match pr_url {
                    Some(u) => Some(u@),
                    None => None,
                },
            },
            LogAnalysisResult::Failure => LogOutcome::Failure,
            LogAnalysisResult::NoUpdater => LogOutcome::NoUpdater,
        }
    }
}

/// A line that the update tool prints when the package failed to build.
pub const BUILD_FAILED_LINE: &'static str = "nix build failed.";

/// What a line reporting an error starts with.
pub const ERROR_PREFIX: &'static str = "error";

/// A pull request as the update tool prints it: this prefix, then its number.
pub const PR_API_PREFIX: &'static str = "https://api.github.com/repos/NixOS/nixpkgs/pulls/";

/// The page of a pull request: this prefix, then its number.
pub const PR_WEB_PREFIX: &'static str = "https://github.com/NixOS/nixpkgs/pull/";

/// A line that the update tool prints for a package without an update script.
pub const NO_UPDATER_LINE: &'static str = "[updateScript] skipping because derivation has no updateScript";

/// Phrases that mark a run as successful or as harmlessly without an update.
pub open spec fn benign_phrases() -> Seq<Seq<char>> {
    seq![
        "Packages updated!"@,
        "There might already be an open PR for this update:"@,
        "An auto update branch exists with an equal or greater version"@,
        "No auto update branch exists"@,
        "Do not update GNOME during a release cycle"@,
    ]
}

/// The phrases of [`benign_phrases`], each with the situation it reports.
fn benign_phrase_list() -> (r: Vec<&'static str>)
    ensures
        r@.map_values(|p: &str| p@) == benign_phrases(),
{
    let mut r: Vec<&'static str> = Vec::new();
    // The update script ran and changed the package.
    r.push("Packages updated!");
    // A pull request for the same update is already open.
    r.push("There might already be an open PR for this update:");
    // An earlier run already prepared this version or a later one.
    r.push("An auto update branch exists with an equal or greater version");
    // The tool found nothing to update from.
    r.push("No auto update branch exists");
    // GNOME packages are held back on purpose during a release cycle.
    r.push("Do not update GNOME during a release cycle");
    proof {
        assert(r@.map_values(|p: &str| p@) =~= benign_phrases());
    }
    r
}

pub open spec fn is_ascii_digit(c: char) -> bool {
    '0' <= c && c <= '9'
}

/// Whether `line` is the pull request prefix followed by one or more digits and
/// nothing else.
pub open spec fn is_pr_api_line(line: Seq<char>) -> bool {
    &&& starts_with(line, PR_API_PREFIX@)
    &&& line.len() > PR_API_PREFIX@.len()
    &&& forall|i: int| PR_API_PREFIX@.len() <= i < line.len() ==> is_ascii_digit(line[i])
}

/// The page of the pull request that a line of [`is_pr_api_line`] names.
pub open spec fn pr_web_url(line: Seq<char>) -> Seq<char> {
    PR_WEB_PREFIX@ + line.skip(PR_API_PREFIX@.len() as int)
}

/// Whether the last non-empty line starts with `prefix` (itself not empty).
pub open spec fn last_nonempty_starts_with(lines: Seq<Seq<char>>, prefix: Seq<char>) -> bool {
    exists|i: int|
        0 <= i < lines.len() && #[trigger] starts_with(lines[i], prefix) && forall|j: int|
            i < j < lines.len() ==> #[trigger] lines[j].len() == 0
}

/// Whether the log holds one of the [`benign_phrases`] anywhere.
pub open spec fn has_benign_phrase(log: Seq<char>) -> bool {
    exists|k: int| 0 <= k < benign_phrases().len() && contains_seq(log, #[trigger] benign_phrases()[k])
}

/// The outcome of a log: the first of these rules that applies decides.
pub open spec fn classify(log: Seq<char>) -> LogOutcome {
    let lines = lines_of(log);
    if lines.contains(BUILD_FAILED_LINE@) {
        LogOutcome::Failure
    } else if last_nonempty_starts_with(lines, ERROR_PREFIX@) {
        LogOutcome::Failure
    } else if lines.len() > 0 && is_pr_api_line(lines.last()) {
        LogOutcome::Success { pr_url: Some(pr_web_url(lines.last())) }
    } else if lines.contains(NO_UPDATER_LINE@) {
        LogOutcome::NoUpdater
    } else if has_benign_phrase(log) {
        LogOutcome::Success { pr_url: None }
    } else {
        LogOutcome::Failure
    }
}

/// The pieces of `s` between newline characters, in order; there is always at
/// least one (the text after the last newline, possibly empty).
pub open spec fn pieces(s: Seq<char>) -> Seq<Seq<char>>
    decreases s.len(),
{
    if s.len() == 0 {
        seq![Seq::<char>::empty()]
    } else if s.last() == '\n' {
        pieces(s.drop_last()).push(Seq::<char>::empty())
    } else {
        let p = pieces(s.drop_last());
        p.update(p.len() - 1, p.last().push(s.last()))
    }
}

/// A newline-terminated piece loses one trailing carriage return.
pub open spec fn strip_cr(l: Seq<char>) -> Seq<char> {
    if l.len() > 0 && l.last() == '\r' {
        l.drop_last()
    } else {
        l
    }
}

/// The lines of a text: each line ends at `\n` or `\r\n`, which is not part of
/// it; the text after the last newline is a line only when it is not empty.
pub open spec fn lines_of(s: Seq<char>) -> Seq<Seq<char>> {
    let p = pieces(s);
    let done = p.drop_last().map_values(|l: Seq<char>| strip_cr(l));
    if p.last().len() == 0 {
        done
    } else {
        done.push(p.last())
    }
}

proof fn lemma_pieces_nonempty(s: Seq<char>)
    ensures
        pieces(s).len() >= 1,
    decreases s.len(),
{
    if s.len() > 0 {
        lemma_pieces_nonempty(s.drop_last());
    }
}

/// The texts that `spans` pick out of `text`.
pub open spec fn span_texts(text: Seq<char>, spans: Seq<(usize, usize)>) -> Seq<Seq<char>> {
    spans.map_values(|p: (usize, usize)| text.subrange(p.0 as int, p.1 as int))
}

/// Whether every span lies within the first `n` characters.
pub open spec fn spans_within(spans: Seq<(usize, usize)>, n: int) -> bool {
    forall|k: int| 0 <= k < spans.len() ==> #[trigger] spans[k].0 <= spans[k].1 <= n
}

/// Where each line of `text` lies: line `i` is `text[r[i].0 .. r[i].1]`.
fn line_spans(text: &Vec<char>) -> (r: Vec<(usize, usize)>)
    ensures
        spans_within(r@, text@.len() as int),
        span_texts(text@, r@) == lines_of(text@),
{
    let n = text.len();
    let mut r: Vec<(usize, usize)> = Vec::new();
    let mut start: usize = 0;
    let mut i: usize = 0;
    proof {
        assert(text@.take(0) =~= Seq::<char>::empty());
        assert(span_texts(text@, r@) =~= pieces(text@.take(0)).drop_last().map_values(
            |l: Seq<char>| strip_cr(l),
        ));
    }
    while i < n
        invariant
            n == text@.len(),
            start <= i <= n,
            spans_within(r@, i as int),
            text@.subrange(start as int, i as int) == pieces(text@.take(i as int)).last(),
            span_texts(text@, r@) == pieces(text@.take(i as int)).drop_last().map_values(
                |l: Seq<char>| strip_cr(l),
            ),
        decreases n - i,
    {
        let ghost prev = pieces(text@.take(i as int));
        proof {
            lemma_pieces_nonempty(text@.take(i as int));
            assert(text@.take(i + 1).drop_last() =~= text@.take(i as int));
        }
        if text[i] == '\n' {
            let end: usize = if i > start && text[i - 1] == '\r' {
                i - 1
            } else {
                i
            };
            proof {
                let cur = text@.subrange(start as int, i as int);
                if i > start && text@[i - 1] == '\r' {
                    assert(cur.drop_last() =~= text@.subrange(start as int, end as int));
                }
                assert(strip_cr(cur) == text@.subrange(start as int, end as int));
            }
            let ghost old_r = r@;
            r.push((start, end));
            start = i + 1;
            proof {
                let np = pieces(text@.take(i + 1));
                assert(np == prev.push(Seq::<char>::empty()));
                assert(np.drop_last() =~= prev);
                assert(prev =~= prev.drop_last().push(prev.last()));
                assert(span_texts(text@, r@) =~= span_texts(text@, old_r).push(
                    text@.subrange(r@.last().0 as int, r@.last().1 as int),
                ));
                assert(span_texts(text@, r@) =~= np.drop_last().map_values(
                    |l: Seq<char>| strip_cr(l),
                ));
                assert(text@.subrange(start as int, i + 1) =~= Seq::<char>::empty());
            }
        } else {
            proof {
                assert(text@.subrange(start as int, i + 1) =~= text@.subrange(
                    start as int,
                    i as int,
                ).push(text@[i as int]));
                let np = pieces(text@.take(i + 1));
                assert(np.drop_last() =~= prev.drop_last());
            }
        }
        i = i + 1;
    }
    proof {
        lemma_pieces_nonempty(text@);
        assert(text@.take(n as int) =~= text@);
    }
    let ghost before = r@;
    if start < n {
        r.push((start, n));
        proof {
            assert(span_texts(text@, r@) =~= span_texts(text@, before).push(
                text@.subrange(start as int, n as int),
            ));
        }
    }
    r
}

/// Whether some span of `text` holds exactly `pat`.
fn some_span_equals(text: &Vec<char>, spans: &Vec<(usize, usize)>, pat: &Vec<char>) -> (r: bool)
    requires
        spans_within(spans@, text@.len() as int),
    ensures
        r == span_texts(text@, spans@).contains(pat@),
{
    let n = spans.len();
    let mut k: usize = 0;
    while k < n
        invariant
            n == spans@.len(),
            spans_within(spans@, text@.len() as int),
            k <= n,
            forall|j: int| 0 <= j < k ==> span_texts(text@, spans@)[j] != pat@,
        decreases n - k,
    {
        let (s, e) = spans[k];
        proof {
            assert(spans@[k as int].0 <= spans@[k as int].1 <= text@.len());
        }
        if span_equals(text, s, e, pat) {
            proof {
                assert(span_texts(text@, spans@)[k as int] == pat@);
            }
            return true;
        }
        k = k + 1;
    }
    false
}

/// Whether the last non-empty span of `text` starts with `pat`.
fn last_nonempty_span_starts_with(
    text: &Vec<char>,
    spans: &Vec<(usize, usize)>,
    pat: &Vec<char>,
) -> (r: bool)
    requires
        spans_within(spans@, text@.len() as int),
        pat@.len() > 0,
    ensures
        r == last_nonempty_starts_with(span_texts(text@, spans@), pat@),
{
    let ghost lines = span_texts(text@, spans@);
    let mut k: usize = spans.len();
    while k > 0
        invariant
            k <= spans@.len(),
            pat@.len() > 0,
            spans_within(spans@, text@.len() as int),
            lines == span_texts(text@, spans@),
            forall|j: int| k <= j < lines.len() ==> #[trigger] lines[j].len() == 0,
        decreases k,
    {
        let (s, e) = spans[k - 1];
        proof {
            assert(spans@[k - 1].0 <= spans@[k - 1].1 <= text@.len());
        }
        if s < e {
            let r = span_starts_with(text, s, e, pat);
            proof {
                let i = k - 1;
                assert(lines[i] == text@.subrange(s as int, e as int));
                if r {
                    assert(starts_with(lines[i], pat@));
                } else {
                    assert(lines[i].len() == e - s);
                    if last_nonempty_starts_with(lines, pat@) {
                        let i2 = choose|i2: int|
                            0 <= i2 < lines.len() && #[trigger] starts_with(lines[i2], pat@)
                                && forall|j: int| i2 < j < lines.len() ==> #[trigger] lines[j].len()
                                == 0;
                        if i2 < i {
                            assert(lines[i].len() == 0);
                        } else if i2 > i {
                            assert(lines[i2].len() == 0);
                        }
                    }
                }
            }
            return r;
        }
        proof {
            assert(lines[k - 1] == text@.subrange(s as int, e as int));
        }
        k = k - 1;
    }
    proof {
        assert forall|i2: int|
            0 <= i2 < lines.len() && #[trigger] starts_with(lines[i2], pat@) implies false by {
            assert(lines[i2].len() == 0);
        }
    }
    false
}

/// Whether every character of `text[s..e]` is an ASCII digit.
fn all_digits(text: &Vec<char>, s: usize, e: usize) -> (r: bool)
    requires
        s <= e <= text@.len(),
    ensures
        r == forall|i: int| s <= i < e ==> is_ascii_digit(#[trigger] text@[i]),
{
    let mut k: usize = s;
    while k < e
        invariant
            s <= k <= e <= text@.len(),
            forall|i: int| s <= i < k ==> is_ascii_digit(#[trigger] text@[i]),
        decreases e - k,
    {
        let c = text[k];
        if !('0' <= c && c <= '9') {
            return false;
        }
        k = k + 1;
    }
    true
}

/// Classifies a log by the first rule of [`classify`] that applies.
pub fn analyze_log(raw: &str) -> (r: LogAnalysisResult)
    ensures
        r@ == classify(raw@),
{
    let text = chars_of(raw);
    let spans = line_spans(&text);
    let ghost lines = lines_of(raw@);
    if some_span_equals(&text, &spans, &chars_of(BUILD_FAILED_LINE)) {
        return LogAnalysisResult::Failure;
    }
    let error_prefix = chars_of(ERROR_PREFIX);
    proof {
        reveal_strlit("error");
    }
    if last_nonempty_span_starts_with(&text, &spans, &error_prefix) {
        return LogAnalysisResult::Failure;
    }
    let n = spans.len();
    if n > 0 {
        let (s, e) = spans[n - 1];
        let api = chars_of(PR_API_PREFIX);
        proof {
            assert(spans@[n - 1].0 <= spans@[n - 1].1 <= text@.len());
            assert(lines.last() == text@.subrange(s as int, e as int));
        }
        if span_starts_with(&text, s, e, &api) && e - s > api.len() && all_digits(
            &text,
            s + api.len(),
            e,
        ) {
            let digits = raw.substring_char(s + api.len(), e);
            let mut url = PR_WEB_PREFIX.to_owned();
            url.append(digits);
            proof {
                let line = lines.last();
                assert(line.skip(PR_API_PREFIX@.len() as int) =~= digits@);
                assert forall|i: int| PR_API_PREFIX@.len() <= i < line.len() implies is_ascii_digit(
                    line[i],
                ) by {
                    assert(line[i] == text@[s + i]);
                }
            }
            return LogAnalysisResult::Success { pr_url: Some(url) };
        }
        proof {
            let line = lines.last();
            if is_pr_api_line(line) {
                assert forall|i: int| s + api@.len() <= i < e implies is_ascii_digit(
                    #[trigger] text@[i],
                ) by {
                    assert(text@[i] == line[i - s]);
                }
            }
        }
    }
    if some_span_equals(&text, &spans, &chars_of(NO_UPDATER_LINE)) {
        return LogAnalysisResult::NoUpdater;
    }
    let phrases = benign_phrase_list();
    let m = phrases.len();
    let mut k: usize = 0;
    while k < m
        invariant
            m == phrases@.len(),
            phrases@.map_values(|p: &str| p@) == benign_phrases(),
            text@ == raw@,
            classify(raw@) == (if has_benign_phrase(raw@) {
                LogOutcome::Success { pr_url: None }
            } else {
                LogOutcome::Failure
            }),
            k <= m,
            forall|j: int| 0 <= j < k ==> !contains_seq(raw@, #[trigger] benign_phrases()[j]),
        decreases m - k,
    {
        proof {
            assert(benign_phrases()[k as int] == phrases@[k as int]@);
        }
        if contains_chars(&text, &chars_of(phrases[k])) {
            proof {
                assert(contains_seq(raw@, benign_phrases()[k as int]));
                assert(has_benign_phrase(raw@));
            }
            return LogAnalysisResult::Success { pr_url: None };
        }
        k = k + 1;
    }
    LogAnalysisResult::Failure
}

/// Every log, the empty one included, has exactly one outcome.
pub proof fn lemma_classify_total(log: Seq<char>)
    ensures
        (classify(log) is Success) as int + (classify(log) is Failure) as int + (classify(
            log,
        ) is NoUpdater) as int == 1,
{
}

/// Classifying the same text twice gives the same outcome.
pub proof fn lemma_classify_repeatable(log: Seq<char>, first: LogOutcome, second: LogOutcome)
    requires
        first == classify(log),
        second == classify(log),
    ensures
        first == second,
{
}

/// A log with the build failure line is a failure, whatever else it holds.
pub proof fn lemma_build_failed_line_fails(log: Seq<char>)
    requires
        lines_of(log).contains(BUILD_FAILED_LINE@),
    ensures
        classify(log) == LogOutcome::Failure,
{
}

/// A log with the no-updater line and no marker that takes precedence over it
/// is skipped.
pub proof fn lemma_no_updater_line_skips(log: Seq<char>)
    requires
        lines_of(log).contains(NO_UPDATER_LINE@),
        !lines_of(log).contains(BUILD_FAILED_LINE@),
        !last_nonempty_starts_with(lines_of(log), ERROR_PREFIX@),
        !(lines_of(log).len() > 0 && is_pr_api_line(lines_of(log).last())),
    ensures
        classify(log) == LogOutcome::NoUpdater,
{
}

/// A log with a benign phrase and no marker that takes precedence over it is a
/// success without a pull request.
pub proof fn lemma_benign_phrase_succeeds(log: Seq<char>)
    requires
        has_benign_phrase(log),
        !lines_of(log).contains(BUILD_FAILED_LINE@),
        !last_nonempty_starts_with(lines_of(log), ERROR_PREFIX@),
        !(lines_of(log).len() > 0 && is_pr_api_line(lines_of(log).last())),
        !lines_of(log).contains(NO_UPDATER_LINE@),
    ensures
        classify(log) == (LogOutcome::Success { pr_url: None }),
{
}

/// A log with none of the recognised markers is a failure.
pub proof fn lemma_unrecognised_log_fails(log: Seq<char>)
    requires
        !lines_of(log).contains(BUILD_FAILED_LINE@),
        !(lines_of(log).len() > 0 && is_pr_api_line(lines_of(log).last())),
        !lines_of(log).contains(NO_UPDATER_LINE@),
        !has_benign_phrase(log),
    ensures
        classify(log) == LogOutcome::Failure,
{
}

} // verus!
