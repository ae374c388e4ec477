//! Worker configuration: named groups of remote workers, checked before use.

use vstd::prelude::*;

use crate::enhance::setup::{TableSetup, WorkerGroup, WorkerTarget};
use crate::enhance::types::DatabaseId;
use crate::text::{
    chars_of, debug_quoted, debug_text, decimal, list_holds, push_decimal, same_text, texts,
    trim_end_of, trimmed_end,
};

verus! {

/// One configured worker.
#[derive(Debug)]
pub struct WorkerConfig {
    pub name: String,
    pub url: String,
}

/// One configured group.
#[derive(Debug)]
pub struct WorkerGroupConfig {
    pub name: String,
    pub replicas: Vec<WorkerConfig>,
}

/// The parts of a parsed URL that the rules read.
#[derive(Debug)]
pub struct UrlParts {
    pub scheme: String,
    pub host: Option<String>,
    pub username: String,
    pub password: Option<String>,
    pub query: Option<String>,
    pub fragment: Option<String>,
}

/// The same parts as values.
pub struct UrlView {
    pub scheme: Seq<char>,
    pub host: Option<Seq<char>>,
    pub username: Seq<char>,
    pub password: Option<Seq<char>>,
    pub query: Option<Seq<char>>,
    pub fragment: Option<Seq<char>>,
}

/// An optional text as a value.
pub open spec fn maybe_text(text: Option<String>) -> Option<Seq<char>> {
    match text {
        Some(text) => Some(text@),
        None => None,
    }
}

impl UrlParts {
    pub open spec fn view(&self) -> UrlView {
        UrlView {
            scheme: self.scheme@,
            host: maybe_text(self.host),
            username: self.username@,
            password: maybe_text(self.password),
            query: maybe_text(self.query),
            fragment: maybe_text(self.fragment),
        }
    }
}

/// What a text parses to as a URL, or the parser's message.
pub uninterp spec fn parsed_url(text: Seq<char>) -> Result<UrlView, Seq<char>>;

/// Calls `reqwest::Url::parse` (the `url` crate's parser) and reads the parts.
/// Claims that the outcome depends on the text alone.
#[verifier::external_body]
fn parse_url(text: &str) -> (parsed: Result<UrlParts, String>)
    ensures
        match parsed {
            Ok(parts) => parsed_url(text@) == Ok::<UrlView, Seq<char>>(parts.view()),
            Err(message) => parsed_url(text@) == Err::<UrlView, Seq<char>>(message@),
        },
{
    match reqwest::Url::parse(text) {
        Ok(url) => Ok(UrlParts {
            scheme: url.scheme().to_string(),
            host: url.host_str().map(|s| s.to_string()),
            username: url.username().to_string(),
            password: url.password().map(|s| s.to_string()),
            query: url.query().map(|s| s.to_string()),
            fragment: url.fragment().map(|s| s.to_string()),
        }),
        Err(error) => Err(error.to_string()),
    }
}

pub open spec fn name_char(c: char) -> bool {
    'a' <= c <= 'z' || 'A' <= c <= 'Z' || '0' <= c <= '9' || c == '-'
}

/// Whether a name is nonempty and made of ASCII letters, digits and hyphens.
pub open spec fn name_valid(name: Seq<char>) -> bool {
    name.len() > 0 && forall|i: int| 0 <= i < name.len() ==> name_char(#[trigger] name[i])
}

/// The message about an invalid name.
pub open spec fn invalid_name(kind: Seq<char>, name: Seq<char>) -> Seq<char> {
    "invalid "@ + kind + " name: "@ + debug_text(name)
}

/// Checks a name of the given kind.
pub fn validate_name(kind: &str, name: &str) -> (checked: Result<(), String>)
    ensures
        match checked {
            Ok(()) => name_valid(name@),
            Err(message) => !name_valid(name@) && message@ == invalid_name(kind@, name@),
        },
{
    let chars = chars_of(name);
    let mut valid: bool = chars.len() > 0;
    let mut i: usize = 0;
    while i < chars.len()
        invariant
            i <= chars.len(),
            chars@ == name@,
            valid == (chars@.len() > 0 && forall|j: int| 0 <= j < i ==> name_char(#[trigger] chars@[j])),
        decreases chars.len() - i,
    {
        let c: char = chars[i];
        if !(('a' <= c && c <= 'z') || ('A' <= c && c <= 'Z') || ('0' <= c && c <= '9') || c
            == '-') {
            assert(!name_char(chars@[i as int]));
            valid = false;
        }
        i = i + 1;
    }
    if valid {
        Ok(())
    } else {
        let mut message = String::from_str("invalid ");
        message.append(kind);
        message.append(" name: ");
        let quoted = debug_quoted(name);
        message.append(quoted.as_str());
        Err(message)
    }
}

/// Whether a URL is a plain `http` or `https` one: with a host, and without
/// credentials, query or fragment.
pub open spec fn plain_http(url: UrlView) -> bool {
    &&& url.scheme == "http"@ || url.scheme == "https"@
    &&& url.host is Some
    &&& url.username == ""@
    &&& url.password is None
    &&& url.query is None
    &&& url.fragment is None
}

/// What is wrong with a worker, given the names and URLs before it.
pub open spec fn worker_issue(
    names: Seq<Seq<char>>,
    urls: Seq<Seq<char>>,
    worker: WorkerConfig,
) -> Option<Seq<char>> {
    let url = trimmed_end(worker.url@, '/');
    if !name_valid(worker.name@) {
        Some(invalid_name("worker"@, worker.name@))
    } else {
        match parsed_url(worker.url@) {
            Err(message) => Some("invalid URL for "@ + worker.name@ + ": "@ + message),
            Ok(parts) => if !plain_http(parts) {
                Some("invalid URL for "@ + worker.name@)
            } else if names.contains(worker.name@) {
                Some("duplicate worker name: "@ + worker.name@)
            } else if urls.contains(url) {
                Some("duplicate worker URL: "@ + url)
            } else {
                None
            },
        }
    }
}

/// The names of the first `n` workers after those before them.
pub open spec fn names_with(names: Seq<Seq<char>>, workers: Seq<WorkerConfig>, n: int) -> Seq<
    Seq<char>,
>
    decreases n,
{
    if n <= 0 {
        names
    } else {
        names_with(names, workers, n - 1).push(workers[n - 1].name@)
    }
}

/// The URLs of the first `n` workers after those before them.
pub open spec fn urls_with(urls: Seq<Seq<char>>, workers: Seq<WorkerConfig>, n: int) -> Seq<
    Seq<char>,
>
    decreases n,
{
    if n <= 0 {
        urls
    } else {
        urls_with(urls, workers, n - 1).push(trimmed_end(workers[n - 1].url@, '/'))
    }
}

/// The first issue among the workers from `i` on.
pub open spec fn first_worker_issue(
    names: Seq<Seq<char>>,
    urls: Seq<Seq<char>>,
    workers: Seq<WorkerConfig>,
    i: int,
) -> Option<Seq<char>>
    decreases workers.len() - i,
{
    if i >= workers.len() {
        None
    } else {
        match worker_issue(names_with(names, workers, i), urls_with(urls, workers, i), workers[i]) {
            Some(issue) => Some(issue),
            None => first_worker_issue(names, urls, workers, i + 1),
        }
    }
}

/// Worker names of the first `n` groups.
pub open spec fn all_names(groups: Seq<WorkerGroupConfig>, n: int) -> Seq<Seq<char>>
    decreases n,
{
    if n <= 0 {
        Seq::empty()
    } else {
        names_with(
            all_names(groups, n - 1),
            groups[n - 1].replicas@,
            groups[n - 1].replicas@.len() as int,
        )
    }
}

/// Worker URLs of the first `n` groups.
pub open spec fn all_urls(groups: Seq<WorkerGroupConfig>, n: int) -> Seq<Seq<char>>
    decreases n,
{
    if n <= 0 {
        Seq::empty()
    } else {
        urls_with(
            all_urls(groups, n - 1),
            groups[n - 1].replicas@,
            groups[n - 1].replicas@.len() as int,
        )
    }
}

/// Whether an earlier group has the name of group `i`.
pub open spec fn group_named_before(groups: Seq<WorkerGroupConfig>, i: int) -> bool {
    exists|j: int| 0 <= j < i && (#[trigger] groups[j]).name@ == groups[i].name@
}

/// What is wrong with group `i`, given those before it.
pub open spec fn config_issue(groups: Seq<WorkerGroupConfig>, i: int) -> Option<Seq<char>> {
    let group = groups[i];
    if !name_valid(group.name@) {
        Some(invalid_name("worker group"@, group.name@))
    } else if group_named_before(groups, i) {
        Some("duplicate worker group name: "@ + group.name@)
    } else if group.replicas@.len() == 0 {
        Some("worker group "@ + group.name@ + " has no replicas"@)
    } else {
        first_worker_issue(all_names(groups, i), all_urls(groups, i), group.replicas@, 0)
    }
}

/// The first issue among the groups from `i` on.
pub open spec fn first_config_issue(groups: Seq<WorkerGroupConfig>, i: int) -> Option<Seq<char>>
    decreases groups.len() - i,
{
    if i >= groups.len() {
        None
    } else {
        match config_issue(groups, i) {
            Some(issue) => Some(issue),
            None => first_config_issue(groups, i + 1),
        }
    }
}

/// Whether a worker group is the configured one: its workers as remote
/// targets, trailing slashes of their URLs dropped.
pub open spec fn realizes(group: WorkerGroup, config: WorkerGroupConfig) -> bool {
    &&& group.name@ == config.name@
    &&& group.replicas@.len() == config.replicas@.len()
    &&& forall|i: int|
        0 <= i < group.replicas@.len() ==> ((#[trigger] group.replicas@[i]) matches
            WorkerTarget::Remote { name, base_url } && name@ == config.replicas@[i].name@ && base_url@
            == trimmed_end(config.replicas@[i].url@, '/'))
}

fn check_worker(names: &Vec<String>, urls: &Vec<String>, worker: &WorkerConfig) -> (checked: Result<
    String,
    String,
>)
    ensures
        match checked {
            Ok(url) => worker_issue(texts(names@), texts(urls@), *worker) is None && url@
                == trimmed_end(worker.url@, '/'),
            Err(message) => worker_issue(texts(names@), texts(urls@), *worker) == Some(message@),
        },
{
    match validate_name("worker", worker.name.as_str()) {
        Ok(()) => {},
        Err(message) => {
            return Err(message);
        },
    }
    let parts = match parse_url(worker.url.as_str()) {
        Ok(parts) => parts,
        Err(error) => {
            let mut message = String::from_str("invalid URL for ");
            message.append(worker.name.as_str());
            message.append(": ");
            message.append(error.as_str());
            return Err(message);
        },
    };
    let plain: bool = (same_text(parts.scheme.as_str(), "http") || same_text(
        parts.scheme.as_str(),
        "https",
    )) && parts.host.is_some() && same_text(parts.username.as_str(), "")
        && parts.password.is_none() && parts.query.is_none() && parts.fragment.is_none();
    if !plain {
        let mut message = String::from_str("invalid URL for ");
        message.append(worker.name.as_str());
        return Err(message);
    }
    let url = trim_end_of(worker.url.as_str(), '/');
    if list_holds(names, worker.name.as_str()) {
        let mut message = String::from_str("duplicate worker name: ");
        message.append(worker.name.as_str());
        return Err(message);
    }
    if list_holds(urls, url.as_str()) {
        let mut message = String::from_str("duplicate worker URL: ");
        message.append(url.as_str());
        return Err(message);
    }
    Ok(url)
}

/// Checks configured groups: names of letters, digits and hyphens, plain
/// `http` URLs, nothing twice. The error is the first thing wrong.
pub fn validate_worker_groups(configured: &Vec<WorkerGroupConfig>) -> (checked: Result<
    Vec<WorkerGroup>,
    String,
>)
    ensures
        match checked {
            Ok(groups) => {
                &&& first_config_issue(configured@, 0) is None
                &&& groups@.len() == configured@.len()
                &&& forall|i: int|
                    0 <= i < groups@.len() ==> realizes(#[trigger] groups@[i], configured@[i])
            },
            Err(message) => first_config_issue(configured@, 0) == Some(message@),
        },
{
    let mut names: Vec<String> = Vec::new();
    let mut urls: Vec<String> = Vec::new();
    let mut groups: Vec<WorkerGroup> = Vec::new();
    let mut i: usize = 0;
    assert(texts(names@) =~= all_names(configured@, 0));
    assert(texts(urls@) =~= all_urls(configured@, 0));
    while i < configured.len()
        invariant
            i <= configured.len(),
            first_config_issue(configured@, 0) == first_config_issue(configured@, i as int),
            texts(names@) == all_names(configured@, i as int),
            texts(urls@) == all_urls(configured@, i as int),
            groups@.len() == i,
            forall|k: int|
                0 <= k < i ==> realizes(#[trigger] groups@[k], configured@[k]),
        decreases configured.len() - i,
    {
        let group = &configured[i];
        match validate_name("worker group", group.name.as_str()) {
            Ok(()) => {},
            Err(message) => {
                return Err(message);
            },
        }
        let mut j: usize = 0;
        while j < i
            invariant
                j <= i < configured.len(),
                *group == configured@[i as int],
                name_valid(group.name@),
                first_config_issue(configured@, 0) == first_config_issue(configured@, i as int),
                forall|k: int| 0 <= k < j ==> (#[trigger] configured@[k]).name@ != group.name@,
            decreases i - j,
        {
            if same_text(configured[j].name.as_str(), group.name.as_str()) {
                let mut message = String::from_str("duplicate worker group name: ");
                message.append(group.name.as_str());
                assert(group_named_before(configured@, i as int));
                return Err(message);
            }
            j = j + 1;
        }
        assert(!group_named_before(configured@, i as int));
        if group.replicas.len() == 0 {
            let mut message = String::from_str("worker group ");
            message.append(group.name.as_str());
            message.append(" has no replicas");
            return Err(message);
        }
        let ghost names0 = all_names(configured@, i as int);
        let ghost urls0 = all_urls(configured@, i as int);
        let mut replicas: Vec<WorkerTarget> = Vec::new();
        let mut r: usize = 0;
        while r < group.replicas.len()
            invariant
                r <= group.replicas.len(),
                i < configured.len(),
                *group == configured@[i as int],
                name_valid(group.name@),
                !group_named_before(configured@, i as int),
                group.replicas@.len() > 0,
                names0 == all_names(configured@, i as int),
                urls0 == all_urls(configured@, i as int),
                first_config_issue(configured@, 0) == first_config_issue(configured@, i as int),
                first_worker_issue(names0, urls0, group.replicas@, 0) == first_worker_issue(
                    names0,
                    urls0,
                    group.replicas@,
                    r as int,
                ),
                texts(names@) == names_with(names0, group.replicas@, r as int),
                texts(urls@) == urls_with(urls0, group.replicas@, r as int),
                replicas@.len() == r,
                forall|k: int|
                    0 <= k < r ==> ((#[trigger] replicas@[k]) matches WorkerTarget::Remote {
                        name,
                        base_url,
                    } && name@ == group.replicas@[k].name@ && base_url@ == trimmed_end(
                        group.replicas@[k].url@,
                        '/',
                    )),
            decreases group.replicas.len() - r,
        {
            let worker = &group.replicas[r];
            let url = match check_worker(&names, &urls, worker) {
                Ok(url) => url,
                Err(message) => {
                    return Err(message);
                },
            };
            let ghost old_names = names@;
            let ghost old_urls = urls@;
            names.push(worker.name.clone());
            urls.push(url.clone());
            proof {
                assert(texts(names@) =~= texts(old_names).push(worker.name@));
                assert(texts(urls@) =~= texts(old_urls).push(url@));
            }
            replicas.push(WorkerTarget::Remote { name: worker.name.clone(), base_url: url });
            r = r + 1;
        }
        groups.push(WorkerGroup { name: group.name.clone(), replicas });
        i = i + 1;
    }
    Ok(groups)
}

/// The groups that plain worker URLs stand for: one worker each, numbered from
/// one.
pub fn groups_of_urls(urls: &Vec<String>) -> (groups: Vec<WorkerGroupConfig>)
    ensures
        groups@.len() == urls@.len(),
        forall|i: int|
            0 <= i < urls@.len() ==> {
                &&& (#[trigger] groups@[i]).name@ == "shard-group-"@ + decimal((i + 1) as nat)
                &&& groups@[i].replicas@.len() == 1
                &&& groups@[i].replicas@[0].name@ == "worker-"@ + decimal((i + 1) as nat)
                &&& groups@[i].replicas@[0].url == urls@[i]
            },
{
    let mut groups: Vec<WorkerGroupConfig> = Vec::new();
    let mut i: usize = 0;
    while i < urls.len()
        invariant
            i <= urls.len(),
            groups@.len() == i,
            forall|k: int|
                0 <= k < i ==> {
                    &&& (#[trigger] groups@[k]).name@ == "shard-group-"@ + decimal((k + 1) as nat)
                    &&& groups@[k].replicas@.len() == 1
                    &&& groups@[k].replicas@[0].name@ == "worker-"@ + decimal((k + 1) as nat)
                    &&& groups@[k].replicas@[0].url == urls@[k]
                },
        decreases urls.len() - i,
    {
        let number: u64 = i as u64 + 1;
        let mut group = String::from_str("shard-group-");
        push_decimal(&mut group, number);
        let mut name = String::from_str("worker-");
        push_decimal(&mut name, number);
        let mut replicas: Vec<WorkerConfig> = Vec::new();
        replicas.push(WorkerConfig { name, url: urls[i].clone() });
        groups.push(WorkerGroupConfig { name: group, replicas });
        i = i + 1;
    }
    groups
}

/// The tables that configured groups serve: the enhancement table alone.
/// There has to be a group.
pub fn remote_worker_setups(groups: &Vec<WorkerGroupConfig>) -> (setups: Result<
    Vec<TableSetup>,
    String,
>)
    ensures
        match setups {
            Ok(setups) => {
                &&& groups@.len() > 0
                &&& first_config_issue(groups@, 0) is None
                &&& setups@.len() == 1
                &&& setups@[0].table == DatabaseId::Enhance
                &&& setups@[0].groups@.len() == groups@.len()
                &&& forall|i: int|
                    0 <= i < groups@.len() ==> realizes(
                        #[trigger] setups@[0].groups@[i],
                        groups@[i],
                    )
            },
            Err(message) => if groups@.len() == 0 {
                message@ == "distributed mode requires at least one worker group"@
            } else {
                first_config_issue(groups@, 0) == Some(message@)
            },
        },
{
    if groups.len() == 0 {
        return Err(
            String::from_str("distributed mode requires at least one worker group"),
        );
    }
    match validate_worker_groups(groups) {
        Ok(groups) => {
            let mut setups: Vec<TableSetup> = Vec::new();
            setups.push(TableSetup { table: DatabaseId::Enhance, groups });
            Ok(setups)
        },
        Err(message) => Err(message),
    }
}

/// Worker names are made of letters, digits and hyphens, and are not empty.
pub proof fn law_names_are_letters_digits_and_hyphens(name: Seq<char>)
    ensures
        name_valid(name) <==> name.len() > 0 && forall|i: int|
            0 <= i < name.len() ==> {
                let c = #[trigger] name[i];
                'a' <= c <= 'z' || 'A' <= c <= 'Z' || '0' <= c <= '9' || c == '-'
            },
{
}

/// A list of groups is accepted exactly where every group by itself raises no issue:
/// its name is valid and no earlier group's, it has a replica, and every replica has a
/// valid name and a plain address, neither of which an earlier replica has.
pub proof fn law_configurations_are_accepted_when_nothing_repeats(groups: Seq<WorkerGroupConfig>)
    ensures
        first_config_issue(groups, 0) is None <==> {
            &&& forall|g: int|
                0 <= g < groups.len() ==> name_valid((#[trigger] groups[g]).name@)
                    && groups[g].replicas@.len() > 0
            &&& forall|g: int, h: int|
                0 <= g < h < groups.len() ==> (#[trigger] groups[g]).name@ != (
                #[trigger] groups[h]).name@
            &&& forall|g: int, r: int|
                0 <= g < groups.len() && 0 <= r < groups[g].replicas@.len() ==> {
                    let worker = #[trigger] groups[g].replicas@[r];
                    name_valid(worker.name@) && (parsed_url(worker.url@) matches Ok(parts)
                        && plain_http(parts))
                }
            &&& all_names(groups, groups.len() as int).no_duplicates()
            &&& all_urls(groups, groups.len() as int).no_duplicates()
        },
{
    lemma_config_issues(groups, groups.len() as int);
    lemma_first_config_issue(groups, 0);
}

proof fn lemma_first_config_issue(groups: Seq<WorkerGroupConfig>, from: int)
    requires
        0 <= from,
    ensures
        first_config_issue(groups, from) is None <==> forall|g: int|
            from <= g < groups.len() ==> (#[trigger] config_issue(groups, g)) is None,
    decreases groups.len() - from,
{
    if from < groups.len() {
        lemma_first_config_issue(groups, from + 1);
    }
}

proof fn lemma_config_issues(groups: Seq<WorkerGroupConfig>, n: int)
    requires
        0 <= n <= groups.len(),
    ensures
        (forall|g: int| 0 <= g < n ==> (#[trigger] config_issue(groups, g)) is None) <==> {
            &&& forall|g: int|
                0 <= g < n ==> name_valid((#[trigger] groups[g]).name@)
                    && groups[g].replicas@.len() > 0
            &&& forall|g: int, h: int|
                0 <= g < h < n ==> (#[trigger] groups[g]).name@ != (#[trigger] groups[h]).name@
            &&& forall|g: int, r: int|
                0 <= g < n && 0 <= r < groups[g].replicas@.len() ==> {
                    let worker = #[trigger] groups[g].replicas@[r];
                    name_valid(worker.name@) && (parsed_url(worker.url@) matches Ok(parts)
                        && plain_http(parts))
                }
            &&& all_names(groups, n).no_duplicates()
            &&& all_urls(groups, n).no_duplicates()
        },
    decreases n,
{
    if n > 0 {
        let g = n - 1;
        lemma_config_issues(groups, g);
        let workers = groups[g].replicas@;
        let names = all_names(groups, g);
        let urls = all_urls(groups, g);
        lemma_worker_issues(names, urls, workers, workers.len() as int);
        lemma_first_worker_issue(names, urls, workers, 0);
        lemma_duplicates_stay(names, workers, workers.len() as int);
        lemma_url_duplicates_stay(urls, workers, workers.len() as int);
        assert(config_issue(groups, g) is None <==> {
            &&& name_valid(groups[g].name@)
            &&& !group_named_before(groups, g)
            &&& workers.len() > 0
            &&& first_worker_issue(names, urls, workers, 0) is None
        });
        let all = forall|h: int| 0 <= h < n ==> (#[trigger] config_issue(groups, h)) is None;
        if all {
            assert(config_issue(groups, g) is None);
            assert forall|a: int, b: int| 0 <= a < b < n implies (#[trigger] groups[a]).name@ != (
            #[trigger] groups[b]).name@ by {
                if b == g {
                    assert(!group_named_before(groups, g));
                }
            }
            assert forall|h: int, r: int|
                0 <= h < n && 0 <= r < groups[h].replicas@.len() implies ({
                let worker = #[trigger] groups[h].replicas@[r];
                name_valid(worker.name@) && (parsed_url(worker.url@) matches Ok(parts)
                    && plain_http(parts))
            }) by {
                if h == g {
                    assert(worker_alone(workers[r]));
                }
            }
        }
        if {
            &&& forall|h: int|
                0 <= h < n ==> name_valid((#[trigger] groups[h]).name@)
                    && groups[h].replicas@.len() > 0
            &&& forall|a: int, b: int|
                0 <= a < b < n ==> (#[trigger] groups[a]).name@ != (#[trigger] groups[b]).name@
            &&& forall|h: int, r: int|
                0 <= h < n && 0 <= r < groups[h].replicas@.len() ==> {
                    let worker = #[trigger] groups[h].replicas@[r];
                    name_valid(worker.name@) && (parsed_url(worker.url@) matches Ok(parts)
                        && plain_http(parts))
                }
            &&& all_names(groups, n).no_duplicates()
            &&& all_urls(groups, n).no_duplicates()
        } {
            assert forall|r: int| 0 <= r < workers.len() implies worker_alone(
                #[trigger] workers[r],
            ) by {
                assert(groups[g].replicas@[r] == workers[r]);
            }
            assert(config_issue(groups, g) is None);
        }
    }
}

/// Whether a worker by itself raises no issue.
pub open spec fn worker_alone(worker: WorkerConfig) -> bool {
    name_valid(worker.name@) && (parsed_url(worker.url@) matches Ok(parts) && plain_http(parts))
}

proof fn lemma_first_worker_issue(
    names: Seq<Seq<char>>,
    urls: Seq<Seq<char>>,
    workers: Seq<WorkerConfig>,
    from: int,
)
    requires
        0 <= from,
    ensures
        first_worker_issue(names, urls, workers, from) is None <==> forall|i: int|
            from <= i < workers.len() ==> (#[trigger] worker_issue(
                names_with(names, workers, i),
                urls_with(urls, workers, i),
                workers[i],
            )) is None,
    decreases workers.len() - from,
{
    if from < workers.len() {
        lemma_first_worker_issue(names, urls, workers, from + 1);
        let here = worker_issue(
            names_with(names, workers, from),
            urls_with(urls, workers, from),
            workers[from],
        );
        if first_worker_issue(names, urls, workers, from + 1) is None && here is None {
            assert forall|i: int| from <= i < workers.len() implies (#[trigger] worker_issue(
                names_with(names, workers, i),
                urls_with(urls, workers, i),
                workers[i],
            )) is None by {}
        }
    }
}

proof fn lemma_worker_issues(
    names: Seq<Seq<char>>,
    urls: Seq<Seq<char>>,
    workers: Seq<WorkerConfig>,
    n: int,
)
    requires
        0 <= n <= workers.len(),
    ensures
        names.no_duplicates() && urls.no_duplicates() ==> ((forall|i: int|
            0 <= i < n ==> (#[trigger] worker_issue(
                names_with(names, workers, i),
                urls_with(urls, workers, i),
                workers[i],
            )) is None) <==> {
            &&& forall|i: int| 0 <= i < n ==> worker_alone(#[trigger] workers[i])
            &&& names_with(names, workers, n).no_duplicates()
            &&& urls_with(urls, workers, n).no_duplicates()
        }),
    decreases n,
{
    if n > 0 && names.no_duplicates() && urls.no_duplicates() {
        let i = n - 1;
        lemma_worker_issues(names, urls, workers, i);
        let seen = names_with(names, workers, i);
        let used = urls_with(urls, workers, i);
        let url = trimmed_end(workers[i].url@, '/');
        lemma_push_keeps_apart(seen, workers[i].name@);
        lemma_push_keeps_apart(used, url);
        assert(worker_issue(seen, used, workers[i]) is None <==> worker_alone(workers[i])
            && !seen.contains(workers[i].name@) && !used.contains(url));
        if forall|k: int|
            0 <= k < n ==> (#[trigger] worker_issue(
                names_with(names, workers, k),
                urls_with(urls, workers, k),
                workers[k],
            )) is None {
            assert(worker_issue(seen, used, workers[i]) is None);
        }
    }
}

proof fn lemma_push_keeps_apart(list: Seq<Seq<char>>, item: Seq<char>)
    ensures
        list.push(item).no_duplicates() <==> list.no_duplicates() && !list.contains(item),
{
    let all = list.push(item);
    if all.no_duplicates() {
        assert forall|i: int, j: int| 0 <= i < j < list.len() implies list[i] != list[j] by {
            assert(all[i] == list[i] && all[j] == list[j]);
        }
        if list.contains(item) {
            let k = list.index_of(item);
            assert(all[k] == item && all[list.len() as int] == item);
        }
    }
    if list.no_duplicates() && !list.contains(item) {
        assert forall|i: int, j: int| 0 <= i < j < all.len() implies all[i] != all[j] by {
            if j == list.len() {
                assert(list[i] == all[i]);
            }
        }
    }
}

proof fn lemma_duplicates_stay(names: Seq<Seq<char>>, workers: Seq<WorkerConfig>, n: int)
    requires
        0 <= n <= workers.len(),
    ensures
        names_with(names, workers, n).no_duplicates() ==> names.no_duplicates(),
    decreases n,
{
    if n > 0 {
        lemma_duplicates_stay(names, workers, n - 1);
        lemma_push_keeps_apart(names_with(names, workers, n - 1), workers[n - 1].name@);
    }
}

proof fn lemma_url_duplicates_stay(urls: Seq<Seq<char>>, workers: Seq<WorkerConfig>, n: int)
    requires
        0 <= n <= workers.len(),
    ensures
        urls_with(urls, workers, n).no_duplicates() ==> urls.no_duplicates(),
    decreases n,
{
    if n > 0 {
        lemma_url_duplicates_stay(urls, workers, n - 1);
        lemma_push_keeps_apart(
            urls_with(urls, workers, n - 1),
            trimmed_end(workers[n - 1].url@, '/'),
        );
    }
}

/// Every worker's name, and its address without slashes at the end, is listed.
pub proof fn law_every_worker_is_listed(groups: Seq<WorkerGroupConfig>, n: int, g: int, r: int)
    requires
        0 <= g < n <= groups.len(),
        0 <= r < groups[g].replicas@.len(),
    ensures
        all_names(groups, n).contains(groups[g].replicas@[r].name@),
        all_urls(groups, n).contains(trimmed_end(groups[g].replicas@[r].url@, '/')),
        all_names(groups, n).len() == all_urls(groups, n).len(),
    decreases n,
{
    let workers = groups[n - 1].replicas@;
    lemma_listed(all_names(groups, n - 1), all_urls(groups, n - 1), workers, workers.len() as int);
    lemma_lengths(groups, n - 1);
    let names = all_names(groups, n);
    let urls = all_urls(groups, n);
    if g < n - 1 {
        law_every_worker_is_listed(groups, n - 1, g, r);
        let a = all_names(groups, n - 1).index_of(groups[g].replicas@[r].name@);
        let b = all_urls(groups, n - 1).index_of(trimmed_end(groups[g].replicas@[r].url@, '/'));
        assert(names[a] == groups[g].replicas@[r].name@);
        assert(urls[b] == trimmed_end(groups[g].replicas@[r].url@, '/'));
    } else {
        assert(names[all_names(groups, n - 1).len() + r] == workers[r].name@);
        assert(urls[all_urls(groups, n - 1).len() + r] == trimmed_end(workers[r].url@, '/'));
    }
}

proof fn lemma_lengths(groups: Seq<WorkerGroupConfig>, n: int)
    requires
        0 <= n <= groups.len(),
    ensures
        all_names(groups, n).len() == all_urls(groups, n).len(),
    decreases n,
{
    if n > 0 {
        lemma_lengths(groups, n - 1);
        lemma_listed(
            all_names(groups, n - 1),
            all_urls(groups, n - 1),
            groups[n - 1].replicas@,
            groups[n - 1].replicas@.len() as int,
        );
    }
}

proof fn lemma_listed(
    names: Seq<Seq<char>>,
    urls: Seq<Seq<char>>,
    workers: Seq<WorkerConfig>,
    n: int,
)
    requires
        0 <= n <= workers.len(),
    ensures
        names_with(names, workers, n).len() == names.len() + n,
        urls_with(urls, workers, n).len() == urls.len() + n,
        forall|k: int|
            0 <= k < names.len() ==> #[trigger] names_with(names, workers, n)[k] == names[k],
        forall|k: int|
            0 <= k < urls.len() ==> #[trigger] urls_with(urls, workers, n)[k] == urls[k],
        forall|r: int|
            0 <= r < n ==> names_with(names, workers, n)[names.len() + r] == (
            #[trigger] workers[r]).name@ && urls_with(urls, workers, n)[urls.len() + r]
                == trimmed_end(workers[r].url@, '/'),
    decreases n,
{
    if n > 0 {
        lemma_listed(names, urls, workers, n - 1);
    }
}

} // verus!
