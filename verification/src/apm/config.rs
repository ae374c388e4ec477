//! Settings of the sidecar, from named texts. What only the caller can tell,
//! whether an address is a socket address, the bit patterns of decimal
//! numbers, the machine's name, comes as an argument.

use vstd::prelude::*;

use crate::apm::number::{digits_value, is_number, is_whole, number_text, parse_whole, whole_digits};
use crate::apm::schema::{
    schema_issue, Schema, DEFAULT_LATENCY_P99, FIVE_BITS, TWO_BITS,
};
use crate::names::{NameMap, NameSet};
use crate::text::{
    begins_with, debug_quoted, debug_text, pieces, split_at_each, split_first, split_once_at,
    starts_with_text, texts, trim_end_of, trim_text, trimmed, trimmed_end,
};

verus! {

/// Settings by name.
pub type Settings = NameMap<String>;

/// A setting: its text without white space around it, unless nothing is left.
pub open spec fn setting(vars: Settings, name: Seq<char>) -> Option<Seq<char>> {
    if vars.values().contains_key(name) && trimmed(vars.values()[name]@).len() > 0 {
        Some(trimmed(vars.values()[name]@))
    } else {
        None
    }
}

pub open spec fn setting_or(vars: Settings, name: Seq<char>, default: Seq<char>) -> Seq<char> {
    match setting(vars, name) {
        Some(text) => text,
        None => default,
    }
}

fn get(vars: &Settings, name: &str) -> (value: Option<String>)
    requires
        vars.wf(),
    ensures
        match value {
            Some(value) => setting(*vars, name@) == Some(value@),
            None => setting(*vars, name@) is None,
        },
{
    match vars.get(name) {
        Some(text) => {
            let value = trim_text(text.as_str());
            if value.as_str().unicode_len() == 0 {
                None
            } else {
                Some(value)
            }
        },
        None => None,
    }
}

fn get_or(vars: &Settings, name: &str, default: &str) -> (value: String)
    requires
        vars.wf(),
    ensures
        value@ == setting_or(*vars, name@, default@),
{
    match get(vars, name) {
        Some(value) => value,
        None => String::from_str(default),
    }
}

/// The items of a list: what stands between commas, without white space
/// around it and without empty items.
pub open spec fn items(parts: Seq<Seq<char>>) -> Seq<Seq<char>>
    decreases parts.len(),
{
    if parts.len() == 0 {
        Seq::empty()
    } else if trimmed(parts.last()).len() == 0 {
        items(parts.drop_last())
    } else {
        items(parts.drop_last()).push(trimmed(parts.last()))
    }
}

/// The items of a list.
pub fn split_list(list: &str) -> (out: Vec<String>)
    ensures
        texts(out@) == items(pieces(list@, ',')),
{
    let parts = split_at_each(list, ',');
    let ghost all = pieces(list@, ',');
    let mut out: Vec<String> = Vec::new();
    let mut i: usize = 0;
    assert(texts(out@) =~= items(all.take(0)));
    while i < parts.len()
        invariant
            i <= parts.len(),
            texts(parts@) == all,
            texts(out@) == items(all.take(i as int)),
        decreases parts.len() - i,
    {
        assert(all[i as int] == parts@[i as int]@);
        assert(all.take(i + 1).drop_last() =~= all.take(i as int));
        let ghost before = texts(out@);
        let item = trim_text(parts[i].as_str());
        if item.as_str().unicode_len() != 0 {
            out.push(item);
            assert(texts(out@) =~= before.push(item@));
        }
        i = i + 1;
    }
    assert(all.take(i as int) =~= all);
    out
}

/// Whether a probe path is one.
pub fn path_value(value: &str) -> (path: Result<String, String>)
    ensures
        match path {
            Ok(path) => begins_with(value@, "/"@) && path@ == value@,
            Err(message) => !begins_with(value@, "/"@) && message@ == path_issue(value@),
        },
{
    if !starts_with_text(value, "/") {
        let mut message = String::from_str("probe path ");
        message.append(debug_quoted(value).as_str());
        message.append(" must start with '/'");
        return Err(message);
    }
    Ok(String::from_str(value))
}

/// What is said of a probe path that is none.
pub open spec fn path_issue(value: Seq<char>) -> Seq<char> {
    "probe path "@ + debug_text(value) + " must start with '/'"@
}

/// The number in a budget override: what stands behind the first equals sign.
pub open spec fn override_number(item: Seq<char>) -> Seq<char> {
    match split_first(item, '=') {
        Some((_, seconds)) => trimmed(seconds),
        None => Seq::empty(),
    }
}

/// What is wrong with a budget override.
pub open spec fn override_issue(item: Seq<char>) -> Option<Seq<char>> {
    if split_first(item, '=') is None {
        Some("override "@ + debug_text(item) + " must look like endpoint=seconds"@)
    } else if !is_number(override_number(item)) {
        Some("override "@ + debug_text(item) + " has a non-numeric budget"@)
    } else {
        None
    }
}

/// What is wrong with the first override that is wrong.
pub open spec fn overrides_issue(list: Seq<Seq<char>>, from: int) -> Option<Seq<char>>
    decreases list.len() - from,
{
    if from < 0 || from >= list.len() {
        None
    } else if override_issue(list[from]) is Some {
        override_issue(list[from])
    } else {
        overrides_issue(list, from + 1)
    }
}

/// Budgets by endpoint, later ones in place of earlier ones.
pub open spec fn budgets_from(list: Seq<Seq<char>>, bits: Seq<u64>, n: int) -> Map<Seq<char>, u64>
    decreases n,
{
    if n <= 0 {
        Map::empty()
    } else {
        budgets_from(list, bits, n - 1).insert(
            trimmed((split_first(list[n - 1], '=')->0).0),
            bits[n - 1],
        )
    }
}

/// Overrides as set.
pub open spec fn override_list(vars: Settings) -> Seq<Seq<char>> {
    match setting(vars, "PIR_APM_LATENCY_P99_OVERRIDES"@) {
        Some(list) => items(pieces(list, ',')),
        None => Seq::empty(),
    }
}

/// The numbers of the overrides, for the caller to turn into bit patterns.
pub fn override_numbers(vars: &Settings) -> (numbers: Vec<String>)
    requires
        vars.wf(),
    ensures
        numbers@.len() == override_list(*vars).len(),
        forall|i: int|
            0 <= i < numbers@.len() ==> (#[trigger] numbers@[i])@ == override_number(
                override_list(*vars)[i],
            ),
{
    let list: Vec<String> = match get(vars, "PIR_APM_LATENCY_P99_OVERRIDES") {
        Some(text) => split_list(text.as_str()),
        None => Vec::new(),
    };
    let ghost wanted = override_list(*vars);
    assert(texts(list@) =~= wanted);
    let mut numbers: Vec<String> = Vec::new();
    let mut i: usize = 0;
    while i < list.len()
        invariant
            i <= list.len(),
            texts(list@) == wanted,
            numbers@.len() == i,
            forall|k: int|
                0 <= k < i ==> (#[trigger] numbers@[k])@ == override_number(wanted[k]),
        decreases list.len() - i,
    {
        assert(wanted[i as int] == list@[i as int]@);
        let number = match split_once_at(list[i].as_str(), '=') {
            Some((_, seconds)) => trim_text(seconds.as_str()),
            None => String::new(),
        };
        assert(number@ =~= override_number(wanted[i as int]));
        numbers.push(number);
        i = i + 1;
    }
    numbers
}

/// The address to listen at, for the caller to check.
pub fn listen_text(vars: &Settings) -> (text: String)
    requires
        vars.wf(),
    ensures
        text@ == setting_or(*vars, "PIR_APM_LISTEN"@, "127.0.0.1:3002"@),
{
    get_or(vars, "PIR_APM_LISTEN", "127.0.0.1:3002")
}

/// The number of the default budget as set, for the caller to turn into its
/// bit pattern.
pub fn latency_number(vars: &Settings) -> (number: Option<String>)
    requires
        vars.wf(),
    ensures
        match number {
            Some(number) => setting(*vars, "PIR_APM_LATENCY_P99_SECONDS"@) == Some(number@),
            None => setting(*vars, "PIR_APM_LATENCY_P99_SECONDS"@) is None,
        },
{
    get(vars, "PIR_APM_LATENCY_P99_SECONDS")
}

/// What the caller has found out.
#[derive(Debug)]
pub struct Outside {
    /// Whether [`listen_text`] is an IP address with a port.
    pub listen_valid: bool,
    /// Bit pattern of [`latency_number`], where it is a number.
    pub latency_bits: u64,
    /// Bit patterns of [`override_numbers`], where they are numbers.
    pub override_bits: Vec<u64>,
    /// The machine's name.
    pub host_name: Option<String>,
}

/// Why settings are refused.
#[derive(Debug)]
pub enum ConfigError {
    Invalid(String),
    /// The metric schema is refused, for this reason.
    Schema(String),
}

impl ConfigError {
    pub fn message(&self) -> (text: String)
        ensures
            text@ == (match self {
                ConfigError::Invalid(text) => text@,
                ConfigError::Schema(_) => "invalid PIR_APM metric schema"@,
            }),
    {
        match self {
            ConfigError::Invalid(text) => text.clone(),
            ConfigError::Schema(_) => String::from_str("invalid PIR_APM metric schema"),
        }
    }
}

/// Settings of the sidecar.
#[derive(Debug)]
pub struct Config {
    pub scrape_url: String,
    pub metrics_path: String,
    pub health_path: String,
    pub ready_path: String,
    pub listen: String,
    pub slack_webhook_url: Option<String>,
    pub title: String,
    pub environment: String,
    pub hostname: String,
    pub data_dir: String,
    pub interval_seconds: u64,
    pub schema: Schema,
}

/// Endpoints as set, or the default ones.
pub open spec fn endpoint_list(vars: Settings) -> Seq<Seq<char>> {
    match setting(vars, "PIR_APM_ENDPOINTS"@) {
        Some(list) => items(pieces(list, ',')),
        None => seq!["health"@, "init"@, "query"@],
    }
}

/// Whether a set of names is the one that a setting lists, or the default.
pub open spec fn lists(
    vars: Settings,
    name: Seq<char>,
    default: Seq<char>,
    members: Set<Seq<char>>,
) -> bool {
    match setting(vars, name) {
        Some(list) => forall|item: Seq<char>| #[trigger]
            members.contains(item) <==> items(pieces(list, ',')).contains(item),
        None => members == set![default],
    }
}

/// Budgets as set, or the default ones.
pub open spec fn budgets(vars: Settings, outside: Outside) -> Map<Seq<char>, u64> {
    match setting(vars, "PIR_APM_LATENCY_P99_OVERRIDES"@) {
        Some(_) => budgets_from(
            override_list(vars),
            outside.override_bits@,
            override_list(vars).len() as int,
        ),
        None => map!["query"@ => FIVE_BITS, "init"@ => TWO_BITS],
    }
}

/// What is wrong with the settings before the schema is looked at.
pub open spec fn early_issue(vars: Settings, outside: Outside) -> Option<Seq<char>> {
    let interval = setting_or(vars, "PIR_APM_INTERVAL_SECONDS"@, "15"@);
    if !outside.listen_valid {
        Some("PIR_APM_LISTEN must be an IP:port socket address"@)
    } else if !is_whole(interval) {
        Some("PIR_APM_INTERVAL_SECONDS must be an integer"@)
    } else if digits_value(whole_digits(interval)) == 0 {
        Some("PIR_APM_INTERVAL_SECONDS must be greater than zero"@)
    } else if setting(vars, "PIR_APM_LATENCY_P99_SECONDS"@) is Some && !is_number(
        setting(vars, "PIR_APM_LATENCY_P99_SECONDS"@)->0,
    ) {
        Some("PIR_APM_LATENCY_P99_SECONDS must be a number"@)
    } else {
        overrides_issue(override_list(vars), 0)
    }
}

/// What is wrong with the settings once the schema is accepted.
pub open spec fn late_issue(vars: Settings) -> Option<Seq<char>> {
    let metrics = setting_or(vars, "PIR_APM_METRICS_PATH"@, "/metrics"@);
    let health = setting_or(vars, "PIR_APM_HEALTH_PATH"@, "/v1/health"@);
    let ready = setting_or(vars, "PIR_APM_READY_PATH"@, "/ready"@);
    if !begins_with(metrics, "/"@) {
        Some(path_issue(metrics))
    } else if !begins_with(health, "/"@) {
        Some(path_issue(health))
    } else if !begins_with(ready, "/"@) {
        Some(path_issue(ready))
    } else {
        None
    }
}

/// Whether a schema is what the settings ask for.
pub open spec fn asked_schema(
    vars: Settings,
    outside: Outside,
    prefix: Seq<char>,
    endpoints: Seq<Seq<char>>,
    processing: NameSet,
    informational: NameSet,
    default_latency: u64,
    overrides: NameMap<u64>,
) -> bool {
    &&& prefix == setting_or(vars, "PIR_APM_METRIC_PREFIX"@, "enhance"@)
    &&& endpoints == endpoint_list(vars)
    &&& processing.wf()
    &&& informational.wf()
    &&& overrides.wf()
    &&& lists(vars, "PIR_APM_PROCESSING_ENDPOINTS"@, "query"@, processing.members())
    &&& lists(vars, "PIR_APM_INFORMATIONAL_ENDPOINTS"@, "health"@, informational.members())
    &&& default_latency == (match setting(vars, "PIR_APM_LATENCY_P99_SECONDS"@) {
        Some(_) => outside.latency_bits,
        None => DEFAULT_LATENCY_P99,
    })
    &&& overrides.values() == budgets(vars, outside)
}

/// Whether a schema that the settings ask for is refused, with this message.
pub open spec fn schema_refused(vars: Settings, outside: Outside, message: Seq<char>) -> bool {
    exists|processing: NameSet, informational: NameSet, overrides: NameMap<u64>|
        #![trigger processing.members(), informational.members(), overrides.values()]
        {
            let default_latency = match setting(vars, "PIR_APM_LATENCY_P99_SECONDS"@) {
                Some(_) => outside.latency_bits,
                None => DEFAULT_LATENCY_P99,
            };
            let prefix = setting_or(vars, "PIR_APM_METRIC_PREFIX"@, "enhance"@);
            &&& asked_schema(
                vars,
                outside,
                prefix,
                endpoint_list(vars),
                processing,
                informational,
                default_latency,
                overrides,
            )
            &&& schema_issue(
                prefix,
                endpoint_list(vars),
                processing.listed(),
                informational.listed(),
                default_latency,
                overrides.listed(),
            ) == Some(message)
        }
}

fn set_or(vars: &Settings, name: &str, default: &str) -> (set: NameSet)
    requires
        vars.wf(),
    ensures
        set.wf(),
        lists(*vars, name@, default@, set.members()),
{
    match get(vars, name) {
        Some(list) => {
            let items = split_list(list.as_str());
            NameSet::from_list(&items)
        },
        None => {
            let mut set = NameSet::new();
            set.insert(String::from_str(default));
            assert(set.members() =~= set![default@]);
            set
        },
    }
}

/// Reads budget overrides, with the bit patterns of their numbers.
pub fn parse_overrides(list: &Vec<String>, bits: &Vec<u64>) -> (overrides: Result<
    NameMap<u64>,
    String,
>)
    requires
        list@.len() == bits@.len(),
    ensures
        match overrides {
            Ok(overrides) => {
                &&& overrides_issue(texts(list@), 0) is None
                &&& overrides.wf()
                &&& overrides.values() == budgets_from(texts(list@), bits@, list@.len() as int)
            },
            Err(message) => overrides_issue(texts(list@), 0) == Some(message@),
        },
{
    let ghost all = texts(list@);
    let mut overrides: NameMap<u64> = NameMap::new();
    let mut i: usize = 0;
    while i < list.len()
        invariant
            i <= list.len(),
            list@.len() == bits@.len(),
            all == texts(list@),
            overrides.wf(),
            overrides.values() == budgets_from(all, bits@, i as int),
            overrides_issue(all, 0) == overrides_issue(all, i as int),
        decreases list.len() - i,
    {
        let item = list[i].as_str();
        assert(all[i as int] == item@);
        match split_once_at(item, '=') {
            None => {
                let mut message = String::from_str("override ");
                message.append(debug_quoted(item).as_str());
                message.append(" must look like endpoint=seconds");
                return Err(message);
            },
            Some((endpoint, seconds)) => {
                if !number_text(trim_text(seconds.as_str()).as_str()) {
                    let mut message = String::from_str("override ");
                    message.append(debug_quoted(item).as_str());
                    message.append(" has a non-numeric budget");
                    return Err(message);
                }
                overrides.insert(trim_text(endpoint.as_str()), bits[i]);
            },
        }
        i = i + 1;
    }
    Ok(overrides)
}

impl Config {
    /// Reads the settings.
    pub fn from_map(vars: &Settings, outside: &Outside) -> (config: Result<Config, ConfigError>)
        requires
            vars.wf(),
            outside.override_bits@.len() == override_list(*vars).len(),
        ensures
            match config {
                Ok(config) => {
                    &&& early_issue(*vars, *outside) is None
                    &&& late_issue(*vars) is None
                    &&& config.schema.wf()
                    &&& asked_schema(
                        *vars,
                        *outside,
                        config.schema.prefix@,
                        texts(config.schema.endpoints@),
                        config.schema.processing_endpoints,
                        config.schema.informational_endpoints,
                        config.schema.default_latency_p99,
                        config.schema.latency_overrides,
                    )
                    &&& config.scrape_url@ == trimmed_end(
                        setting_or(*vars, "PIR_APM_SCRAPE_URL"@, "http://127.0.0.1:8080"@),
                        '/',
                    )
                    &&& config.metrics_path@ == setting_or(
                        *vars,
                        "PIR_APM_METRICS_PATH"@,
                        "/metrics"@,
                    )
                    &&& config.health_path@ == setting_or(
                        *vars,
                        "PIR_APM_HEALTH_PATH"@,
                        "/v1/health"@,
                    )
                    &&& config.ready_path@ == setting_or(*vars, "PIR_APM_READY_PATH"@, "/ready"@)
                    &&& config.listen@ == setting_or(
                        *vars,
                        "PIR_APM_LISTEN"@,
                        "127.0.0.1:3002"@,
                    )
                    &&& match config.slack_webhook_url {
                        Some(url) => setting(*vars, "PIR_APM_SLACK_WEBHOOK_URL"@) == Some(url@),
                        None => setting(*vars, "PIR_APM_SLACK_WEBHOOK_URL"@) is None,
                    }
                    &&& config.title@ == setting_or(*vars, "PIR_APM_TITLE"@, "Enhance PIR APM"@)
                    &&& config.environment@ == setting_or(
                        *vars,
                        "PIR_APM_ENVIRONMENT"@,
                        "unknown"@,
                    )
                    &&& config.hostname@ == setting_or(
                        *vars,
                        "PIR_APM_HOSTNAME"@,
                        match outside.host_name {
                            Some(name) => name@,
                            None => "unknown"@,
                        },
                    )
                    &&& config.data_dir@ == setting_or(
                        *vars,
                        "PIR_APM_DATA_DIR"@,
                        "/srv/zakura/enhance-data"@,
                    )
                    &&& config.interval_seconds == digits_value(
                        whole_digits(setting_or(*vars, "PIR_APM_INTERVAL_SECONDS"@, "15"@)),
                    )
                },
                Err(ConfigError::Invalid(message)) => {
                    ||| early_issue(*vars, *outside) == Some(message@)
                    ||| early_issue(*vars, *outside) is None && late_issue(*vars) == Some(message@)
                },
                Err(ConfigError::Schema(message)) => {
                    &&& early_issue(*vars, *outside) is None
                    &&& schema_refused(*vars, *outside, message@)
                },
            },
    {
        let scrape_url = trim_end_of(
            get_or(vars, "PIR_APM_SCRAPE_URL", "http://127.0.0.1:8080").as_str(),
            '/',
        );
        let listen = listen_text(vars);
        if !outside.listen_valid {
            return Err(
                ConfigError::Invalid(
                    String::from_str("PIR_APM_LISTEN must be an IP:port socket address"),
                ),
            );
        }
        let interval_text = get_or(vars, "PIR_APM_INTERVAL_SECONDS", "15");
        let interval_seconds: u64 = match parse_whole(interval_text.as_str()) {
            Some(seconds) => seconds,
            None => {
                return Err(
                    ConfigError::Invalid(
                        String::from_str("PIR_APM_INTERVAL_SECONDS must be an integer"),
                    ),
                );
            },
        };
        if interval_seconds == 0 {
            return Err(
                ConfigError::Invalid(
                    String::from_str("PIR_APM_INTERVAL_SECONDS must be greater than zero"),
                ),
            );
        }
        let prefix = get_or(vars, "PIR_APM_METRIC_PREFIX", "enhance");
        let endpoints: Vec<String> = match get(vars, "PIR_APM_ENDPOINTS") {
            Some(list) => split_list(list.as_str()),
            None => default_endpoints(),
        };
        let processing = set_or(vars, "PIR_APM_PROCESSING_ENDPOINTS", "query");
        let informational = set_or(vars, "PIR_APM_INFORMATIONAL_ENDPOINTS", "health");
        let default_latency: u64 = match latency_number(vars) {
            Some(number) => {
                if !number_text(number.as_str()) {
                    return Err(
                        ConfigError::Invalid(
                            String::from_str("PIR_APM_LATENCY_P99_SECONDS must be a number"),
                        ),
                    );
                }
                outside.latency_bits
            },
            None => DEFAULT_LATENCY_P99,
        };
        let overrides: NameMap<u64> = match get(vars, "PIR_APM_LATENCY_P99_OVERRIDES") {
            Some(text) => {
                let list = split_list(text.as_str());
                assert(texts(list@) == override_list(*vars));
                assert(list@.len() == texts(list@).len());
                match parse_overrides(&list, &outside.override_bits) {
                    Ok(overrides) => overrides,
                    Err(message) => {
                        return Err(ConfigError::Invalid(message));
                    },
                }
            },
            None => {
                let mut overrides: NameMap<u64> = NameMap::new();
                overrides.insert(String::from_str("query"), FIVE_BITS);
                overrides.insert(String::from_str("init"), TWO_BITS);
                assert(overrides.values() =~= map!["query"@ => FIVE_BITS, "init"@ => TWO_BITS]);
                overrides
            },
        };
        assert(early_issue(*vars, *outside) is None);
        assert(asked_schema(
            *vars,
            *outside,
            prefix@,
            texts(endpoints@),
            processing,
            informational,
            default_latency,
            overrides,
        ));
        let schema = match Schema::new(
            prefix.as_str(),
            endpoints,
            processing,
            informational,
            default_latency,
            overrides,
        ) {
            Ok(schema) => schema,
            Err(message) => {
                assert(schema_refused(*vars, *outside, message@));
                return Err(ConfigError::Schema(message));
            },
        };
        let metrics_path = match path_value(
            get_or(vars, "PIR_APM_METRICS_PATH", "/metrics").as_str(),
        ) {
            Ok(path) => path,
            Err(message) => {
                return Err(ConfigError::Invalid(message));
            },
        };
        let health_path = match path_value(
            get_or(vars, "PIR_APM_HEALTH_PATH", "/v1/health").as_str(),
        ) {
            Ok(path) => path,
            Err(message) => {
                return Err(ConfigError::Invalid(message));
            },
        };
        let ready_path = match path_value(get_or(vars, "PIR_APM_READY_PATH", "/ready").as_str()) {
            Ok(path) => path,
            Err(message) => {
                return Err(ConfigError::Invalid(message));
            },
        };
        let machine: &str = match &outside.host_name {
            Some(name) => name.as_str(),
            None => "unknown",
        };
        Ok(
            Config {
                scrape_url,
                metrics_path,
                health_path,
                ready_path,
                listen,
                slack_webhook_url: get(vars, "PIR_APM_SLACK_WEBHOOK_URL"),
                title: get_or(vars, "PIR_APM_TITLE", "Enhance PIR APM"),
                environment: get_or(vars, "PIR_APM_ENVIRONMENT", "unknown"),
                hostname: get_or(vars, "PIR_APM_HOSTNAME", machine),
                data_dir: get_or(vars, "PIR_APM_DATA_DIR", "/srv/zakura/enhance-data"),
                interval_seconds,
                schema,
            },
        )
    }
}

fn default_endpoints() -> (endpoints: Vec<String>)
    ensures
        texts(endpoints@) == seq!["health"@, "init"@, "query"@],
{
    let mut endpoints: Vec<String> = Vec::new();
    endpoints.push(String::from_str("health"));
    endpoints.push(String::from_str("init"));
    endpoints.push(String::from_str("query"));
    assert(texts(endpoints@) =~= seq!["health"@, "init"@, "query"@]);
    endpoints
}

/// The items of a list are its pieces without white space around them; empty ones are
/// passed over.
pub proof fn law_items_are_the_pieces_with_something_in_them(parts: Seq<Seq<char>>)
    ensures
        items(parts) == parts.filter(|part: Seq<char>| trimmed(part).len() > 0).map_values(
            |part: Seq<char>| trimmed(part),
        ),
    decreases parts.len(),
{
    reveal(Seq::filter);
    let filled = |part: Seq<char>| trimmed(part).len() > 0;
    let inner = |part: Seq<char>| trimmed(part);
    if parts.len() > 0 {
        law_items_are_the_pieces_with_something_in_them(parts.drop_last());
    }
    assert(items(parts) =~= parts.filter(filled).map_values(inner));
}

/// Overrides are refused for the first of them that is not a name, an equals sign and
/// a number.
pub proof fn law_the_first_wrong_override_is_told(list: Seq<Seq<char>>, from: int)
    requires
        0 <= from,
    ensures
        overrides_issue(list, from) is None <==> forall|i: int|
            from <= i < list.len() ==> (#[trigger] list[i]).contains('=') && is_number(
                override_number(list[i]),
            ),
        forall|i: int|
            from <= i < list.len() && (#[trigger] override_issue(list[i])) is Some && (forall|
                j: int,
            |
                from <= j < i ==> (#[trigger] override_issue(list[j])) is None) ==> overrides_issue(
                list,
                from,
            ) == override_issue(list[i]),
    decreases list.len() - from,
{
    if from < list.len() {
        crate::text::law_texts_split_at_the_first_separator(list[from], '=');
        if let Some((before, after)) = split_first(list[from], '=') {
            assert(list[from][before.len() as int] == '=');
        }
        law_the_first_wrong_override_is_told(list, from + 1);
        assert forall|i: int|
            from <= i < list.len() && (#[trigger] override_issue(list[i])) is Some && (forall|
                j: int,
            |
                from <= j < i ==> (#[trigger] override_issue(list[j])) is None) implies overrides_issue(
            list,
            from,
        ) == override_issue(list[i]) by {
            if i > from {
                assert(override_issue(list[from]) is None);
            }
        }
    }
}

/// The budget of an endpoint is the one that its last override gives it, and only
/// endpoints with an override have one.
pub proof fn law_the_last_override_of_an_endpoint_counts(
    list: Seq<Seq<char>>,
    bits: Seq<u64>,
    n: int,
    name: Seq<char>,
)
    requires
        0 <= n <= list.len(),
    ensures
        ({
            let names = |i: int| trimmed((split_first(list[i], '=')->0).0) == name;
            let budgets = budgets_from(list, bits, n);
            &&& budgets.contains_key(name) <==> exists|i: int| 0 <= i < n && #[trigger] names(i)
            &&& forall|i: int|
                0 <= i < n && #[trigger] names(i) && (forall|j: int|
                    i < j < n ==> !(#[trigger] names(j))) ==> budgets[name] == bits[i]
        }),
    decreases n,
{
    let names = |i: int| trimmed((split_first(list[i], '=')->0).0) == name;
    let budgets = budgets_from(list, bits, n);
    if n > 0 {
        law_the_last_override_of_an_endpoint_counts(list, bits, n - 1, name);
        if names(n - 1) {
            assert(budgets.contains_key(name) && budgets[name] == bits[n - 1]);
        } else {
            let before = budgets_from(list, bits, n - 1);
            assert(budgets.contains_key(name) == before.contains_key(name));
            if before.contains_key(name) {
                let i = choose|i: int| 0 <= i < n - 1 && #[trigger] names(i);
                assert(names(i));
            }
            assert forall|i: int|
                0 <= i < n && #[trigger] names(i) && (forall|j: int|
                    i < j < n ==> !(#[trigger] names(j))) implies budgets[name] == bits[i] by {
                assert(i < n - 1);
                assert forall|j: int| i < j < n - 1 implies !(#[trigger] names(j)) by {}
            }
        }
    }
}

/// A setting counts where it is there and holds more than white space, and as what is
/// left without the white space around it.
pub proof fn law_blank_settings_do_not_count(vars: Settings, name: Seq<char>, default: Seq<char>)
    ensures
        setting(vars, name) is Some <==> vars.values().contains_key(name) && trimmed(
            vars.values()[name]@,
        ).len() > 0,
        setting(vars, name) is Some ==> setting_or(vars, name, default) == trimmed(
            vars.values()[name]@,
        ),
        setting(vars, name) is None ==> setting_or(vars, name, default) == default,
{
}

/// Settings are accepted exactly where the address is valid, the interval is a whole
/// number above zero, the latency a number, every override is right, and every path
/// begins with a slash.
pub proof fn law_settings_are_accepted_when_all_are_right(vars: Settings, outside: Outside)
    ensures
        early_issue(vars, outside) is None <==> {
            let interval = setting_or(vars, "PIR_APM_INTERVAL_SECONDS"@, "15"@);
            &&& outside.listen_valid
            &&& is_whole(interval)
            &&& digits_value(whole_digits(interval)) >= 1
            &&& setting(vars, "PIR_APM_LATENCY_P99_SECONDS"@) matches Some(latency) ==> is_number(
                latency,
            )
            &&& forall|i: int|
                0 <= i < override_list(vars).len() ==> (#[trigger] override_list(vars)[i]).contains(
                    '=',
                ) && is_number(override_number(override_list(vars)[i]))
        },
        late_issue(vars) is None <==> {
            let metrics = setting_or(vars, "PIR_APM_METRICS_PATH"@, "/metrics"@);
            let health = setting_or(vars, "PIR_APM_HEALTH_PATH"@, "/v1/health"@);
            let ready = setting_or(vars, "PIR_APM_READY_PATH"@, "/ready"@);
            &&& metrics.len() > 0 && metrics[0] == '/'
            &&& health.len() > 0 && health[0] == '/'
            &&& ready.len() > 0 && ready[0] == '/'
        },
{
    law_the_first_wrong_override_is_told(override_list(vars), 0);
    lemma_slash(setting_or(vars, "PIR_APM_METRICS_PATH"@, "/metrics"@));
    lemma_slash(setting_or(vars, "PIR_APM_HEALTH_PATH"@, "/v1/health"@));
    lemma_slash(setting_or(vars, "PIR_APM_READY_PATH"@, "/ready"@));
}

proof fn lemma_slash(path: Seq<char>)
    ensures
        begins_with(path, "/"@) <==> path.len() > 0 && path[0] == '/',
{
    reveal_strlit("/");
    assert("/"@ =~= seq!['/']);
    if path.len() > 0 {
        assert(path.take(1) =~= seq![path[0]]);
        if path.take(1) == "/"@ {
            assert(path.take(1)[0] == "/"@[0]);
        }
    }
}

} // verus!
