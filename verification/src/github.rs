//! Bringing the language list up to date from the GitHub API.
//!
//! The requests themselves are made by the program around this library; what
//! stands here is every decision around them: which entries are looked up and
//! where, what a reply turns an entry into, and that an entry whose lookup is
//! skipped or fails is carried over unchanged.

use vstd::prelude::*;

use crate::languages::Language;
use crate::text::{contains, has_substring, lemma_replace_absent, replace, replace_all};

verus! {

/// The environment variable holding a GitHub API token. It can also be set in
/// a `.env` file at the repository root.
pub const TOKEN_VAR: &'static str = "GITHUB_API_TOKEN";

/// The media type asked of the API.
pub const ACCEPT: &'static str = "application/vnd.github+json";

/// How long, in seconds, a project can go without a push before the table
/// calls it inactive: 24 weeks.
pub const ACTIVE_FOR_SECS: i64 = 14515200;

/// Nanoseconds in a second.
pub const NANOS_PER_SEC: u32 = 1000000000;

/// The earliest second that a timestamp can name (the first second of the
/// year -262143).
pub const MIN_SECS: i64 = -8334601228800;

/// The latest second that a timestamp can name (the last second of the year
/// 262142).
pub const MAX_SECS: i64 = 8210266876799;

/// A moment in UTC: whole seconds since the Unix epoch, and the nanoseconds
/// past that second. During a leap second `nanos` runs from one to two
/// billion, past the end of the 59th second of the minute.
#[derive(Debug, Clone, Copy, PartialEq, Eq)]
pub struct Timestamp {
    pub secs: i64,
    pub nanos: u32,
}

impl Timestamp {
    /// The moment is one the calendar can name: a leap second only ever
    /// follows the 59th second of a minute.
    pub open spec fn wf(self) -> bool {
        &&& MIN_SECS <= self.secs <= MAX_SECS
        &&& self.nanos < 2 * NANOS_PER_SEC
        &&& self.nanos >= NANOS_PER_SEC ==> self.secs % 60 == 59
    }

    /// `ACTIVE_FOR_SECS` can be added to the moment without leaving the
    /// calendar.
    pub open spec fn can_age(self) -> bool {
        &&& self.wf()
        &&& self.secs + ACTIVE_FOR_SECS <= MAX_SECS
    }
}

/// The moment `ACTIVE_FOR_SECS` after `t`, as seconds and nanoseconds. Moving
/// forward out of a leap second lands at the same fraction of the 59th second
/// it followed, on the later day: 23:59:60.5 becomes 23:59:59.5.
pub open spec fn active_until(t: Timestamp) -> (int, int) {
    if t.nanos >= NANOS_PER_SEC {
        (t.secs + ACTIVE_FOR_SECS, t.nanos - NANOS_PER_SEC)
    } else {
        (t.secs + ACTIVE_FOR_SECS, t.nanos as int)
    }
}

/// A project last pushed to at `pushed_at` still counts as active at `now`:
/// `now` is no later than `ACTIVE_FOR_SECS` after the push.
pub open spec fn active_at(pushed_at: Timestamp, now: Timestamp) -> bool {
    let (secs, nanos) = active_until(pushed_at);
    secs > now.secs || (secs == now.secs && nanos >= now.nanos)
}

/// `t` moved `secs` seconds forward, with `chrono`'s `DateTime + TimeDelta`.
/// Claimed of it, as `chrono`'s source has it for a positive whole number of
/// seconds: the seconds add up, and the nanoseconds stay, except that moving
/// out of a leap second drops its extra second: 23:59:60.1 becomes 23:59:59.1
/// on the later day.
#[verifier::external_body]
fn later_by(t: Timestamp, secs: i64) -> (moved: Timestamp)
    requires
        t.wf(),
        0 < secs <= i64::MAX / 1000,
        t.secs + secs <= MAX_SECS,
    ensures
        moved.secs == t.secs + secs,
        moved.nanos == if t.nanos >= NANOS_PER_SEC {
            t.nanos - NANOS_PER_SEC
        } else {
            t.nanos as int
        },
{
    let start = chrono::DateTime::from_timestamp(t.secs, t.nanos).unwrap();
    let moved = start + chrono::TimeDelta::seconds(secs);
    Timestamp { secs: moved.timestamp(), nanos: moved.timestamp_subsec_nanos() }
}

/// Whether a project pushed to at `pushed_at` still counts as active at `now`.
pub fn is_active_at(pushed_at: Timestamp, now: Timestamp) -> (active: bool)
    requires
        pushed_at.can_age(),
    ensures
        active == active_at(pushed_at, now),
{
    let until = later_by(pushed_at, ACTIVE_FOR_SECS);
    until.secs > now.secs || (until.secs == now.secs && until.nanos >= now.nanos)
}

/// The current time, read with `chrono::Utc::now` and taken apart into
/// seconds and nanoseconds. Claimed of it: it is a moment the calendar can
/// name, not before the Unix epoch and not inside a leap second. Which moment
/// it is depends on the clock and is left unsaid.
#[verifier::external_body]
fn now() -> (t: Timestamp)
    ensures
        t.wf(),
        0 <= t.secs,
        t.nanos < NANOS_PER_SEC,
{
    let t = chrono::Utc::now();
    Timestamp { secs: t.timestamp(), nanos: t.timestamp_subsec_nanos() }
}

/// Whether a project pushed to at `pushed_at` still counts as active now.
pub fn is_active(pushed_at: Timestamp) -> (active: bool)
    requires
        pushed_at.can_age(),
    ensures
        exists|now: Timestamp|
            now.wf() && 0 <= now.secs && now.nanos < NANOS_PER_SEC && active == active_at(
                pushed_at,
                now,
            ),
{
    let now = now();
    is_active_at(pushed_at, now)
}

/// For moments outside leap seconds, "active" means exactly that at most
/// 24 weeks have passed since the push, counted in nanoseconds.
pub proof fn lemma_active_within_window(pushed_at: Timestamp, now: Timestamp)
    requires
        pushed_at.nanos < NANOS_PER_SEC,
        now.nanos < NANOS_PER_SEC,
    ensures
        active_at(pushed_at, now) <==> (now.secs * 1000000000 + now.nanos) - (pushed_at.secs
            * 1000000000 + pushed_at.nanos) <= ACTIVE_FOR_SECS * 1000000000,
{
}

/// Once a project counts as inactive it stays so as time goes on.
pub proof fn lemma_inactive_stays_inactive(pushed_at: Timestamp, now: Timestamp, later: Timestamp)
    requires
        !active_at(pushed_at, now),
        now.secs < later.secs || (now.secs == later.secs && now.nanos <= later.nanos),
    ensures
        !active_at(pushed_at, later),
{
}

/// The URL points at GitHub.
pub open spec fn is_github_url(url: Seq<char>) -> bool {
    has_substring(url, "github.com"@)
}

/// The API URL for a repository's web URL.
pub open spec fn api_url_of(url: Seq<char>) -> Seq<char> {
    replace_all(url, "github.com"@, "api.github.com/repos"@)
}

/// Whether a language's URL points at GitHub, and so can be looked up.
pub fn is_github(url: &str) -> (github: bool)
    ensures
        github == is_github_url(url@),
{
    contains(url, "github.com")
}

/// Turn a repository's web URL into the API URL for it.
pub fn api_url(url: &str) -> (api: String)
    ensures
        api@ == api_url_of(url@),
{
    proof {
        reveal_strlit("github.com");
    }
    replace(url, "github.com", "api.github.com/repos")
}

/// A URL that is not a GitHub one has no API URL other than itself.
pub proof fn lemma_api_url_of_other_host(url: Seq<char>)
    requires
        !is_github_url(url),
    ensures
        api_url_of(url) == url,
{
    lemma_replace_absent(url, "github.com"@, "api.github.com/repos"@);
}

/// The value of the `Authorization` header for an API token.
pub fn authorization(token: &str) -> (value: String)
    ensures
        value@ == "token "@ + token@,
{
    let mut value = String::from_str("token ");
    value.append(token);
    value
}


/// The parts of a GitHub repository the table cares about.
#[derive(Debug)]
pub struct Repository {
    pub description: Option<String>,
    pub stargazers_count: u64,
    pub pushed_at: Timestamp,
}

/// A language's entry brought up to date from its repository, as at `now`.
/// The name and URL are ours, not the API's: the list may well call a
/// language something other than its repository name.
pub open spec fn updated_language(language: Language, repository: Repository, now: Timestamp) -> Language {
    Language {
        name: language.name,
        url: language.url,
        description: repository.description,
        stars: repository.stargazers_count,
        active: active_at(repository.pushed_at, now),
    }
}

/// Bring a language's entry up to date from its repository, as at `now`.
pub fn updated_at(language: Language, repository: Repository, now: Timestamp) -> (entry: Language)
    requires
        repository.pushed_at.can_age(),
    ensures
        entry == updated_language(language, repository, now),
{
    let active = is_active_at(repository.pushed_at, now);
    Language {
        name: language.name,
        url: language.url,
        description: repository.description,
        stars: repository.stargazers_count,
        active,
    }
}

/// What an entry becomes when the lookup it called for answered `response`
/// (`None`: not looked up, or the lookup failed), as at `now`. A language
/// whose URL is not a GitHub one, or whose request fails, is carried over
/// unchanged: a network hiccup should cost a language its freshness, not its
/// place in the list.
pub open spec fn refreshed_entry(language: Language, response: Option<Repository>, now: Timestamp) -> Language {
    match response {
        Some(repository) if is_github_url(language.url@) => updated_language(
            language,
            repository,
            now,
        ),
        _ => language,
    }
}

/// What a finished entry holds. An entry looked up on GitHub takes its
/// description and star count from the reply, keeps its own name and URL, and
/// is active exactly when the push was at most 24 weeks before `now`
/// (counted in nanoseconds, outside leap seconds). Any other entry, and any
/// entry whose lookup failed, is the entry as it was.
pub proof fn lemma_refreshed_entry(language: Language, response: Option<Repository>, now: Timestamp)
    ensures
        !is_github_url(language.url@) || response is None ==> refreshed_entry(
            language,
            response,
            now,
        ) == language,
        is_github_url(language.url@) && response is Some ==> {
            let entry = refreshed_entry(language, response, now);
            let repository = response->0;
            &&& entry.name == language.name
            &&& entry.url == language.url
            &&& entry.description == repository.description
            &&& entry.stars == repository.stargazers_count
            &&& entry.active == active_at(repository.pushed_at, now)
            &&& repository.pushed_at.nanos < NANOS_PER_SEC && now.nanos < NANOS_PER_SEC ==> (
            entry.active <==> (now.secs * 1000000000 + now.nanos) - (repository.pushed_at.secs
                * 1000000000 + repository.pushed_at.nanos) <= ACTIVE_FOR_SECS * 1000000000)
        },
{
    if is_github_url(language.url@) && response is Some && response->0.pushed_at.nanos
        < NANOS_PER_SEC && now.nanos < NANOS_PER_SEC {
        lemma_active_within_window(response->0.pushed_at, now);
    }
}

/// `after` is `before` refreshed: same name and URL, and unchanged if the URL
/// is not a GitHub one.
pub open spec fn keeps_entry(before: Language, after: Language) -> bool {
    &&& after.name == before.name
    &&& after.url == before.url
    &&& !is_github_url(before.url@) ==> after == before
}

/// What to do for the next language of a refresh.
pub enum Step {
    /// The URL is not a GitHub one: the entry is kept as it is.
    Skip { name: String },
    /// Look the repository up at `url`, the API URL.
    Fetch { name: String, url: String },
}

/// A refresh of the language list under way: the entries still to do, and
/// those done, in list order.
pub struct Refresh {
    /// The entries still to do, the next one last.
    pending: Vec<Language>,
    done: Vec<Language>,
    list: Ghost<Seq<Language>>,
}

impl Refresh {
    /// The list being refreshed.
    pub closed spec fn input(self) -> Seq<Language> {
        self.list@
    }

    /// The entries done so far, in list order.
    pub closed spec fn output(self) -> Seq<Language> {
        self.done@
    }

    pub closed spec fn wf(self) -> bool {
        &&& self.pending@.len() + self.done@.len() == self.list@.len()
        &&& forall|k: int|
            0 <= k < self.pending@.len() ==> #[trigger] self.pending@[k] == self.list@[self.list@.len()
                - 1 - k]
        &&& forall|j: int| 0 <= j < self.done@.len() ==> keeps_entry(self.list@[j], #[trigger] self.done@[j])
    }

    /// Every entry is done.
    pub open spec fn finished(self) -> bool {
        self.output().len() == self.input().len()
    }

    /// The entry to do next.
    pub open spec fn current(self) -> Language {
        self.input()[self.output().len() as int]
    }

    /// Start refreshing `languages`.
    pub fn new(languages: Vec<Language>) -> (refresh: Refresh)
        ensures
            refresh.wf(),
            refresh.input() == languages@,
            refresh.output() == Seq::<Language>::empty(),
    {
        let ghost list = languages@;
        let mut rest = languages;
        let mut pending: Vec<Language> = Vec::new();
        while rest.len() > 0
            invariant
                rest@.len() + pending@.len() == list.len(),
                rest@ == list.take(rest@.len() as int),
                forall|k: int| 0 <= k < pending@.len() ==> #[trigger] pending@[k] == list[list.len() - 1 - k],
            decreases rest@.len(),
        {
            let language = rest.pop().unwrap();
            pending.push(language);
            assert(rest@ =~= list.take(rest@.len() as int));
        }
        Refresh { pending, done: Vec::new(), list: Ghost(list) }
    }

    /// What to do for the next entry: `None` once every entry is done.
    pub fn next_step(&self) -> (step: Option<Step>)
        requires
            self.wf(),
        ensures
            step is None <==> self.finished(),
            step matches Some(Step::Skip { name }) ==> name@ == self.current().name@
                && !is_github_url(self.current().url@),
            step matches Some(Step::Fetch { name, url }) ==> name@ == self.current().name@
                && is_github_url(self.current().url@) && url@ == api_url_of(self.current().url@),
    {
        if self.pending.len() == 0 {
            return None;
        }
        let language = &self.pending[self.pending.len() - 1];
        assert(*language == self.current());
        let name = language.name.clone();
        if is_github(language.url.as_str()) {
            Some(Step::Fetch { name, url: api_url(language.url.as_str()) })
        } else {
            Some(Step::Skip { name })
        }
    }

    /// Finish the current entry, given what its lookup answered (`None` if it
    /// was skipped or failed).
    pub fn advance(&mut self, response: Option<Repository>)
        requires
            old(self).wf(),
            !old(self).finished(),
            is_github_url(old(self).current().url@) && response is Some ==> response->0.pushed_at.can_age(),
        ensures
            final(self).wf(),
            final(self).input() == old(self).input(),
            exists|now: Timestamp|
                now.wf() && 0 <= now.secs && now.nanos < NANOS_PER_SEC && final(self).output()
                    == old(self).output().push(
                    refreshed_entry(old(self).current(), response, now),
                ),
    {
        let language = self.pending.pop().unwrap();
        assert(language == old(self).current());
        let github = is_github(language.url.as_str());
        let ghost mut at = Timestamp { secs: 0, nanos: 0 };
        let entry = match response {
            Some(repository) if github => {
                let t = now();
                proof {
                    at = t;
                }
                updated_at(language, repository, t)
            },
            _ => language,
        };
        self.done.push(entry);
        assert(at.wf() && 0 <= at.secs && at.nanos < NANOS_PER_SEC && self.output() == old(self).output().push(
            refreshed_entry(old(self).current(), response, at),
        ));
        assert forall|k: int| 0 <= k < self.pending@.len() implies #[trigger] self.pending@[k]
            == self.list@[self.list@.len() - 1 - k] by {
            assert(self.pending@[k] == old(self).pending@[k]);
        }
        assert forall|j: int| 0 <= j < self.done@.len() implies keeps_entry(
            self.list@[j],
            #[trigger] self.done@[j],
        ) by {
            if j < old(self).done@.len() {
                assert(self.done@[j] == old(self).done@[j]);
            }
        }
    }

    /// The refreshed list, once every entry is done: every language is kept,
    /// in order, under its own name and URL, and those not on GitHub are
    /// unchanged.
    pub fn finish(self) -> (refreshed: Vec<Language>)
        requires
            self.wf(),
            self.finished(),
        ensures
            refreshed@ == self.output(),
            refreshed@.len() == self.input().len(),
            forall|j: int|
                0 <= j < refreshed@.len() ==> keeps_entry(self.input()[j], #[trigger] refreshed@[j]),
    {
        self.done
    }
}

} // verus!
