//! Which metric families the sidecar reads, and how each endpoint is judged.
//! The server decides the prefix and the endpoints; the sidecar adds which of
//! them report processing time apart, which are never paged, and the 99th
//! percentile each is held to. Budgets are binary64 bit patterns of seconds.

use vstd::prelude::*;

use crate::apm::number::{finite_positive, is_finite_positive, ONE_BITS};
use crate::names::{NameMap, NameSet};
use crate::text::{chars_of, debug_quoted, debug_text, list_holds, texts};

verus! {

/// Budget of endpoints that have none of their own: one second.
pub const DEFAULT_LATENCY_P99: u64 = ONE_BITS;

/// Bit pattern of two.
pub const TWO_BITS: u64 = 0x4000_0000_0000_0000;

/// Bit pattern of five.
pub const FIVE_BITS: u64 = 0x4014_0000_0000_0000;

/// Characters of identifiers.
pub open spec fn identifier_char(c: char) -> bool {
    'a' <= c <= 'z' || '0' <= c <= '9' || c == '_'
}

/// Whether a text matches `[a-z0-9_]+`.
pub open spec fn identifier(text: Seq<char>) -> bool {
    text.len() > 0 && forall|i: int| 0 <= i < text.len() ==> identifier_char(#[trigger] text[i])
}

pub fn is_identifier(value: &str) -> (yes: bool)
    ensures
        yes == identifier(value@),
{
    let chars = chars_of(value);
    if chars.len() == 0 {
        return false;
    }
    let mut i: usize = 0;
    while i < chars.len()
        invariant
            i <= chars.len(),
            chars@ == value@,
            forall|j: int| 0 <= j < i ==> identifier_char(#[trigger] value@[j]),
        decreases chars.len() - i,
    {
        let c: char = chars[i];
        if !(('a' <= c && c <= 'z') || ('0' <= c && c <= '9') || c == '_') {
            return false;
        }
        i = i + 1;
    }
    true
}

/// A part that stands in a message, quoted.
pub open spec fn about(before: Seq<char>, part: Seq<char>, behind: Seq<char>) -> Seq<char> {
    before + debug_text(part) + behind
}

fn about_text(before: &str, part: &str, behind: &str) -> (text: String)
    ensures
        text@ == about(before@, part@, behind@),
{
    let mut text = String::from_str(before);
    text.append(debug_quoted(part).as_str());
    text.append(behind);
    text
}

/// What is wrong with a list of endpoints from a place on.
pub open spec fn endpoints_issue(endpoints: Seq<Seq<char>>, from: int) -> Option<Seq<char>>
    decreases endpoints.len() - from,
{
    if from < 0 || from >= endpoints.len() {
        None
    } else if !identifier(endpoints[from]) {
        Some(about("endpoint "@, endpoints[from], " must match [a-z0-9_]+"@))
    } else if endpoints.take(from).contains(endpoints[from]) {
        Some(about("duplicate endpoint "@, endpoints[from], ""@))
    } else {
        endpoints_issue(endpoints, from + 1)
    }
}

/// What is wrong with a list of names from a place on.
pub open spec fn names_issue(names: Seq<Seq<char>>, from: int) -> Option<Seq<char>>
    decreases names.len() - from,
{
    if from < 0 || from >= names.len() {
        None
    } else if !identifier(names[from]) {
        Some(about("endpoint "@, names[from], " must match [a-z0-9_]+"@))
    } else {
        names_issue(names, from + 1)
    }
}

/// What is wrong with budgets from a place on.
pub open spec fn budgets_issue(budgets: Seq<(String, u64)>, from: int) -> Option<Seq<char>>
    decreases budgets.len() - from,
{
    if from < 0 || from >= budgets.len() {
        None
    } else if !identifier(budgets[from].0@) {
        Some(about("latency override for "@, budgets[from].0@, " must match [a-z0-9_]+"@))
    } else if !finite_positive(budgets[from].1) {
        Some(about("latency budget for "@, budgets[from].0@, " must be positive"@))
    } else {
        budgets_issue(budgets, from + 1)
    }
}

/// What is wrong with a definition, the first thing only.
pub open spec fn schema_issue(
    prefix: Seq<char>,
    endpoints: Seq<Seq<char>>,
    processing: Seq<Seq<char>>,
    informational: Seq<Seq<char>>,
    default_latency: u64,
    budgets: Seq<(String, u64)>,
) -> Option<Seq<char>> {
    if !identifier(prefix) {
        Some(about("metric prefix "@, prefix, " must match [a-z0-9_]+"@))
    } else if endpoints.len() == 0 {
        Some("at least one endpoint is required"@)
    } else if endpoints_issue(endpoints, 0) is Some {
        endpoints_issue(endpoints, 0)
    } else if names_issue(processing, 0) is Some {
        names_issue(processing, 0)
    } else if names_issue(informational, 0) is Some {
        names_issue(informational, 0)
    } else if budgets_issue(budgets, 0) is Some {
        budgets_issue(budgets, 0)
    } else if !finite_positive(default_latency) {
        Some("default latency budget must be positive"@)
    } else {
        None
    }
}

/// The families the sidecar reads and the budgets of the endpoints.
#[derive(Debug)]
pub struct Schema {
    pub prefix: String,
    /// Endpoints that always have a row.
    pub endpoints: Vec<String>,
    /// Endpoints paged on their processing time.
    pub processing_endpoints: NameSet,
    /// Endpoints that are shown and never paged.
    pub informational_endpoints: NameSet,
    pub default_latency_p99: u64,
    pub latency_overrides: NameMap<u64>,
    pub requests_total: String,
    pub duration_bucket: String,
    pub duration_sum: String,
    pub duration_count: String,
    pub processing_bucket: String,
    pub processing_sum: String,
    pub processing_count: String,
    pub in_flight: String,
    pub processing_in_flight: String,
    pub gauge_prefix: String,
    pub worker_prefix: String,
    pub layout_prefix: String,
    pub table_prefix: String,
    pub worker_table_prefix: String,
    pub worker_group_prefix: String,
    pub worker_replica_requests_total: String,
    pub worker_replica_duration_bucket: String,
    pub worker_replica_duration_sum: String,
    pub worker_replica_duration_count: String,
    pub worker_replica_in_flight: String,
}

fn joined(prefix: &str, suffix: &str) -> (name: String)
    ensures
        name@ == prefix@ + suffix@,
{
    let mut name = String::from_str(prefix);
    name.append(suffix);
    name
}

fn check_endpoints(endpoints: &Vec<String>) -> (issue: Option<String>)
    ensures
        match issue {
            Some(text) => endpoints_issue(texts(endpoints@), 0) == Some(text@),
            None => endpoints_issue(texts(endpoints@), 0) is None,
        },
{
    let ghost list = texts(endpoints@);
    let mut seen: Vec<String> = Vec::new();
    let mut i: usize = 0;
    while i < endpoints.len()
        invariant
            i <= endpoints.len(),
            list == texts(endpoints@),
            texts(seen@) == list.take(i as int),
            endpoints_issue(list, 0) == endpoints_issue(list, i as int),
        decreases endpoints.len() - i,
    {
        let endpoint = endpoints[i].as_str();
        assert(list[i as int] == endpoint@);
        if !is_identifier(endpoint) {
            return Some(about_text("endpoint ", endpoint, " must match [a-z0-9_]+"));
        }
        if list_holds(&seen, endpoint) {
            return Some(about_text("duplicate endpoint ", endpoint, ""));
        }
        let ghost before = texts(seen@);
        seen.push(endpoints[i].clone());
        proof {
            assert(texts(seen@) =~= before.push(endpoint@));
            assert(list.take(i + 1) =~= list.take(i as int).push(list[i as int]));
        }
        i = i + 1;
    }
    None
}

fn check_names(names: &NameSet) -> (issue: Option<String>)
    ensures
        match issue {
            Some(text) => names_issue(names.listed(), 0) == Some(text@),
            None => names_issue(names.listed(), 0) is None,
        },
{
    let mut i: usize = 0;
    while i < names.len()
        invariant
            i <= names.listed().len(),
            names_issue(names.listed(), 0) == names_issue(names.listed(), i as int),
        decreases names.listed().len() - i,
    {
        if !is_identifier(names.at(i)) {
            return Some(about_text("endpoint ", names.at(i), " must match [a-z0-9_]+"));
        }
        i = i + 1;
    }
    None
}

fn check_budgets(budgets: &NameMap<u64>) -> (issue: Option<String>)
    ensures
        match issue {
            Some(text) => budgets_issue(budgets.listed(), 0) == Some(text@),
            None => budgets_issue(budgets.listed(), 0) is None,
        },
{
    let mut i: usize = 0;
    while i < budgets.len()
        invariant
            i <= budgets.listed().len(),
            budgets_issue(budgets.listed(), 0) == budgets_issue(budgets.listed(), i as int),
        decreases budgets.listed().len() - i,
    {
        let endpoint = budgets.name_at(i);
        if !is_identifier(endpoint) {
            return Some(
                about_text("latency override for ", endpoint, " must match [a-z0-9_]+"),
            );
        }
        if !is_finite_positive(*budgets.value_at(i)) {
            return Some(about_text("latency budget for ", endpoint, " must be positive"));
        }
        i = i + 1;
    }
    None
}

impl Schema {
    /// The families are named after the prefix.
    pub open spec fn named(&self) -> bool {
        &&& self.requests_total@ == self.prefix@ + "_http_requests_total"@
        &&& self.duration_bucket@ == self.prefix@ + "_http_request_duration_seconds_bucket"@
        &&& self.duration_sum@ == self.prefix@ + "_http_request_duration_seconds_sum"@
        &&& self.duration_count@ == self.prefix@ + "_http_request_duration_seconds_count"@
        &&& self.processing_bucket@ == self.prefix@ + "_http_request_processing_duration_seconds_bucket"@
        &&& self.processing_sum@ == self.prefix@ + "_http_request_processing_duration_seconds_sum"@
        &&& self.processing_count@ == self.prefix@ + "_http_request_processing_duration_seconds_count"@
        &&& self.in_flight@ == self.prefix@ + "_http_in_flight"@
        &&& self.processing_in_flight@ == self.prefix@ + "_http_processing_in_flight"@
        &&& self.gauge_prefix@ == self.prefix@ + "_snapshot_"@
        &&& self.worker_prefix@ == self.prefix@ + "_worker_"@
        &&& self.layout_prefix@ == self.prefix@ + "_layout_"@
        &&& self.table_prefix@ == self.prefix@ + "_table_"@
        &&& self.worker_table_prefix@ == self.prefix@ + "_worker_table_"@
        &&& self.worker_group_prefix@ == self.prefix@ + "_worker_group_"@
        &&& self.worker_replica_requests_total@ == self.prefix@ + "_worker_replica_requests_total"@
        &&& self.worker_replica_duration_bucket@ == self.prefix@ + "_worker_replica_request_duration_seconds_bucket"@
        &&& self.worker_replica_duration_sum@ == self.prefix@ + "_worker_replica_request_duration_seconds_sum"@
        &&& self.worker_replica_duration_count@ == self.prefix@ + "_worker_replica_request_duration_seconds_count"@
        &&& self.worker_replica_in_flight@ == self.prefix@ + "_worker_replica_in_flight"@
    }

    pub open spec fn wf(&self) -> bool {
        &&& self.processing_endpoints.wf()
        &&& self.informational_endpoints.wf()
        &&& self.latency_overrides.wf()
        &&& self.named()
        &&& schema_issue(
            self.prefix@,
            texts(self.endpoints@),
            self.processing_endpoints.listed(),
            self.informational_endpoints.listed(),
            self.default_latency_p99,
            self.latency_overrides.listed(),
        ) is None
    }

    pub fn new(
        prefix: &str,
        endpoints: Vec<String>,
        processing_endpoints: NameSet,
        informational_endpoints: NameSet,
        default_latency_p99: u64,
        latency_overrides: NameMap<u64>,
    ) -> (schema: Result<Schema, String>)
        requires
            processing_endpoints.wf(),
            informational_endpoints.wf(),
            latency_overrides.wf(),
        ensures
            ({
                let issue = schema_issue(
                    prefix@,
                    texts(endpoints@),
                    processing_endpoints.listed(),
                    informational_endpoints.listed(),
                    default_latency_p99,
                    latency_overrides.listed(),
                );
                match schema {
                    Ok(schema) => {
                        &&& issue is None
                        &&& schema.wf()
                        &&& schema.prefix@ == prefix@
                        &&& schema.endpoints == endpoints
                        &&& schema.processing_endpoints == processing_endpoints
                        &&& schema.informational_endpoints == informational_endpoints
                        &&& schema.default_latency_p99 == default_latency_p99
                        &&& schema.latency_overrides == latency_overrides
                    },
                    Err(message) => issue == Some(message@),
                }
            }),
    {
        if !is_identifier(prefix) {
            return Err(about_text("metric prefix ", prefix, " must match [a-z0-9_]+"));
        }
        if endpoints.len() == 0 {
            return Err(String::from_str("at least one endpoint is required"));
        }
        if let Some(issue) = check_endpoints(&endpoints) {
            return Err(issue);
        }
        if let Some(issue) = check_names(&processing_endpoints) {
            return Err(issue);
        }
        if let Some(issue) = check_names(&informational_endpoints) {
            return Err(issue);
        }
        if let Some(issue) = check_budgets(&latency_overrides) {
            return Err(issue);
        }
        if !is_finite_positive(default_latency_p99) {
            return Err(String::from_str("default latency budget must be positive"));
        }
        Ok(
            Schema {
                requests_total: joined(prefix, "_http_requests_total"),
                duration_bucket: joined(prefix, "_http_request_duration_seconds_bucket"),
                duration_sum: joined(prefix, "_http_request_duration_seconds_sum"),
                duration_count: joined(prefix, "_http_request_duration_seconds_count"),
                processing_bucket: joined(prefix, "_http_request_processing_duration_seconds_bucket"),
                processing_sum: joined(prefix, "_http_request_processing_duration_seconds_sum"),
                processing_count: joined(prefix, "_http_request_processing_duration_seconds_count"),
                in_flight: joined(prefix, "_http_in_flight"),
                processing_in_flight: joined(prefix, "_http_processing_in_flight"),
                gauge_prefix: joined(prefix, "_snapshot_"),
                worker_prefix: joined(prefix, "_worker_"),
                layout_prefix: joined(prefix, "_layout_"),
                table_prefix: joined(prefix, "_table_"),
                worker_table_prefix: joined(prefix, "_worker_table_"),
                worker_group_prefix: joined(prefix, "_worker_group_"),
                worker_replica_requests_total: joined(prefix, "_worker_replica_requests_total"),
                worker_replica_duration_bucket: joined(prefix, "_worker_replica_request_duration_seconds_bucket"),
                worker_replica_duration_sum: joined(prefix, "_worker_replica_request_duration_seconds_sum"),
                worker_replica_duration_count: joined(prefix, "_worker_replica_request_duration_seconds_count"),
                worker_replica_in_flight: joined(prefix, "_worker_replica_in_flight"),
                prefix: String::from_str(prefix),
                endpoints,
                processing_endpoints,
                informational_endpoints,
                default_latency_p99,
                latency_overrides,
            },
        )
    }

    /// Whether an endpoint is configured.
    pub open spec fn configures(&self, endpoint: Seq<char>) -> bool {
        texts(self.endpoints@).contains(endpoint)
    }

    pub fn knows(&self, endpoint: &str) -> (known: bool)
        ensures
            known == self.configures(endpoint@),
    {
        list_holds(&self.endpoints, endpoint)
    }

    /// Whether an endpoint is paged on the time it takes once a request's body
    /// is complete.
    pub fn uses_processing(&self, endpoint: &str) -> (uses: bool)
        requires
            self.wf(),
        ensures
            uses == self.processing_endpoints.members().contains(endpoint@),
    {
        self.processing_endpoints.contains(endpoint)
    }

    /// Whether an endpoint is shown and never paged.
    pub fn is_informational(&self, endpoint: &str) -> (informs: bool)
        requires
            self.wf(),
        ensures
            informs == self.informational_endpoints.members().contains(endpoint@),
    {
        self.informational_endpoints.contains(endpoint)
    }

    /// What the 99th percentile of an endpoint is held to.
    pub open spec fn budget_of(&self, endpoint: Seq<char>) -> Option<u64> {
        if self.informational_endpoints.members().contains(endpoint) {
            None
        } else if self.latency_overrides.values().contains_key(endpoint) {
            Some(self.latency_overrides.values()[endpoint])
        } else {
            Some(self.default_latency_p99)
        }
    }

    /// The budget an endpoint is paged on; an endpoint that is not configured
    /// gets the default.
    pub fn latency_budget(&self, endpoint: &str) -> (budget: Option<u64>)
        requires
            self.wf(),
        ensures
            budget == self.budget_of(endpoint@),
    {
        if self.is_informational(endpoint) {
            return None;
        }
        match self.latency_overrides.get(endpoint) {
            Some(budget) => Some(*budget),
            None => Some(self.default_latency_p99),
        }
    }

    /// The budget for the time that a client observes: none for an endpoint
    /// paged on its processing time.
    pub fn observed_budget(&self, endpoint: &str) -> (budget: Option<u64>)
        requires
            self.wf(),
        ensures
            budget == (if self.processing_endpoints.members().contains(endpoint@) {
                None
            } else {
                self.budget_of(endpoint@)
            }),
    {
        if self.uses_processing(endpoint) {
            None
        } else {
            self.latency_budget(endpoint)
        }
    }

    /// The schema of the enhancement coordinator.
    pub fn enhance_default() -> (schema: Schema)
        ensures
            schema.wf(),
            schema.prefix@ == "enhance"@,
            texts(schema.endpoints@) == seq!["health"@, "init"@, "query"@],
            schema.processing_endpoints.members() == set!["query"@],
            schema.informational_endpoints.members() == set!["health"@],
            schema.default_latency_p99 == DEFAULT_LATENCY_P99,
            schema.latency_overrides.values() == map!["query"@ => FIVE_BITS, "init"@ => TWO_BITS],
    {
        let mut endpoints: Vec<String> = Vec::new();
        endpoints.push(String::from_str("health"));
        endpoints.push(String::from_str("init"));
        endpoints.push(String::from_str("query"));
        let mut processing = NameSet::new();
        processing.insert(String::from_str("query"));
        let mut informational = NameSet::new();
        informational.insert(String::from_str("health"));
        let mut budgets: NameMap<u64> = NameMap::new();
        budgets.insert(String::from_str("query"), FIVE_BITS);
        budgets.insert(String::from_str("init"), TWO_BITS);
        proof {
            lemma_default_names();
            assert(texts(endpoints@) =~= seq!["health"@, "init"@, "query"@]);
            assert(processing.members() =~= set!["query"@]);
            assert(informational.members() =~= set!["health"@]);
            assert(budgets.values() =~= map!["query"@ => FIVE_BITS, "init"@ => TWO_BITS]);
            processing.lemma_listed();
            informational.lemma_listed();
            let list = texts(endpoints@);
            reveal_with_fuel(endpoints_issue, 4);
            assert forall|i: int| 0 <= i < list.len() implies !list.take(i).contains(list[i]) by {
                if list.take(i).contains(list[i]) {
                    let k = list.take(i).index_of(list[i]);
                    assert(list[k] == list[i]);
                }
            }
            assert(endpoints_issue(list, 0) is None);
            let first = processing.listed();
            assert forall|i: int| 0 <= i < first.len() implies identifier(#[trigger] first[i]) by {
                assert(first.contains(first[i]));
                assert(processing.members().contains(first[i]));
            }
            lemma_names_fine(first, 0);
            let second = informational.listed();
            assert forall|i: int| 0 <= i < second.len() implies identifier(
                #[trigger] second[i],
            ) by {
                assert(second.contains(second[i]));
                assert(informational.members().contains(second[i]));
            }
            lemma_names_fine(second, 0);
            lemma_budgets_fine(budgets, 0);
        }
        match Schema::new(
            "enhance",
            endpoints,
            processing,
            informational,
            DEFAULT_LATENCY_P99,
            budgets,
        ) {
            Ok(schema) => schema,
            Err(_) => vstd::pervasive::unreached(),
        }
    }
}

proof fn lemma_default_names()
    ensures
        identifier("enhance"@),
        identifier("health"@),
        identifier("init"@),
        identifier("query"@),
        "health"@ != "init"@,
        "health"@ != "query"@,
        "init"@ != "query"@,
{
    reveal_strlit("enhance");
    reveal_strlit("health");
    reveal_strlit("init");
    reveal_strlit("query");
    assert("health"@.len() == 6 && "init"@.len() == 4 && "query"@.len() == 5);
}

proof fn lemma_names_fine(names: Seq<Seq<char>>, from: int)
    requires
        0 <= from,
        forall|i: int| 0 <= i < names.len() ==> identifier(#[trigger] names[i]),
    ensures
        names_issue(names, from) is None,
    decreases names.len() - from,
{
    if from < names.len() {
        lemma_names_fine(names, from + 1);
    }
}

proof fn lemma_budgets_fine(budgets: NameMap<u64>, from: int)
    requires
        0 <= from,
        budgets.wf(),
        forall|name: Seq<char>| #[trigger]
            budgets.values().contains_key(name) ==> identifier(name) && finite_positive(
                budgets.values()[name],
            ),
    ensures
        budgets_issue(budgets.listed(), from) is None,
    decreases budgets.listed().len() - from,
{
    if from < budgets.listed().len() {
        budgets.lemma_value_listed(from);
        lemma_budgets_fine(budgets, from + 1);
    }
}

/// Identifiers are small letters, digits and underscores, and not empty.
pub proof fn law_identifiers_are_small_letters_digits_and_underscores(text: Seq<char>, i: int)
    requires
        identifier(text),
    ensures
        text.len() > 0,
        0 <= i < text.len() ==> ({
            let c = text[i];
            'a' <= c <= 'z' || '0' <= c <= '9' || c == '_'
        }),
{
    if 0 <= i < text.len() {
        assert(identifier_char(text[i]));
    }
}

/// Whatever is made of small letters, digits and underscores is an identifier.
pub proof fn law_small_letters_digits_and_underscores_are_identifiers(text: Seq<char>)
    requires
        text.len() > 0,
        forall|i: int|
            0 <= i < text.len() ==> {
                let c = #[trigger] text[i];
                'a' <= c <= 'z' || '0' <= c <= '9' || c == '_'
            },
    ensures
        identifier(text),
{
    assert forall|i: int| 0 <= i < text.len() implies identifier_char(#[trigger] text[i]) by {}
}

/// A schema is accepted exactly where its prefix and all its endpoints are
/// identifiers, it has an endpoint and none twice, and all its budgets are finite
/// numbers above zero.
pub proof fn law_schemas_are_accepted_when_all_parts_are(
    prefix: Seq<char>,
    endpoints: Seq<Seq<char>>,
    processing: Seq<Seq<char>>,
    informational: Seq<Seq<char>>,
    default_latency: u64,
    budgets: Seq<(String, u64)>,
)
    ensures
        schema_issue(prefix, endpoints, processing, informational, default_latency, budgets) is None
            <==> {
            &&& identifier(prefix)
            &&& endpoints.len() > 0
            &&& endpoints.no_duplicates()
            &&& forall|i: int| 0 <= i < endpoints.len() ==> identifier(#[trigger] endpoints[i])
            &&& forall|i: int| 0 <= i < processing.len() ==> identifier(#[trigger] processing[i])
            &&& forall|i: int|
                0 <= i < informational.len() ==> identifier(#[trigger] informational[i])
            &&& forall|i: int|
                0 <= i < budgets.len() ==> identifier((#[trigger] budgets[i]).0@)
                    && finite_positive(budgets[i].1)
            &&& finite_positive(default_latency)
        },
{
    lemma_endpoints_issue(endpoints, 0);
    lemma_names_issue(processing, 0);
    lemma_names_issue(informational, 0);
    lemma_budgets_issue(budgets, 0);
    if endpoints_issue(endpoints, 0) is None {
        assert forall|i: int, j: int| 0 <= i < j < endpoints.len() implies endpoints[i]
            != endpoints[j] by {
            assert(!endpoints.take(j).contains(endpoints[j]));
            assert(endpoints.take(j)[i] == endpoints[i]);
        }
    }
    if endpoints.no_duplicates() {
        assert forall|j: int| 0 <= j < endpoints.len() implies !endpoints.take(j).contains(
            #[trigger] endpoints[j],
        ) by {
            if endpoints.take(j).contains(endpoints[j]) {
                let i = endpoints.take(j).index_of(endpoints[j]);
                assert(endpoints[i] == endpoints[j]);
            }
        }
    }
}

proof fn lemma_endpoints_issue(endpoints: Seq<Seq<char>>, from: int)
    requires
        0 <= from,
    ensures
        endpoints_issue(endpoints, from) is None <==> forall|i: int|
            from <= i < endpoints.len() ==> identifier(#[trigger] endpoints[i]) && !endpoints.take(
                i,
            ).contains(endpoints[i]),
    decreases endpoints.len() - from,
{
    if from < endpoints.len() {
        lemma_endpoints_issue(endpoints, from + 1);
    }
}

proof fn lemma_names_issue(names: Seq<Seq<char>>, from: int)
    requires
        0 <= from,
    ensures
        names_issue(names, from) is None <==> forall|i: int|
            from <= i < names.len() ==> identifier(#[trigger] names[i]),
    decreases names.len() - from,
{
    if from < names.len() {
        lemma_names_issue(names, from + 1);
    }
}

proof fn lemma_budgets_issue(budgets: Seq<(String, u64)>, from: int)
    requires
        0 <= from,
    ensures
        budgets_issue(budgets, from) is None <==> forall|i: int|
            from <= i < budgets.len() ==> identifier((#[trigger] budgets[i]).0@)
                && finite_positive(budgets[i].1),
    decreases budgets.len() - from,
{
    if from < budgets.len() {
        lemma_budgets_issue(budgets, from + 1);
    }
}

} // verus!
