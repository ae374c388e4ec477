//! The page. Figures come as text and, where a decision rests on them, as
//! bit patterns; every name and message from outside is escaped.

use vstd::prelude::*;

use crate::apm::arrange::{in_order, pattern_rank, rank_of_pattern, Ranked};
use crate::apm::assets::{SCRIPT, STYLE};
use crate::apm::html::{
    age_text, bytes_human, chip, chip_html, class_suffix, clock_text, decimal_text, escape, escaped,
    gauge_label, humanize_gauge, kpi, kpi_html, meter, meter_html, privacy_note, privacy_note_html,
    rank_of, relative_time, size_text, status_chip, status_chip_html, table_rank, time, tone_suffix,
    MEMORY_AVAILABLE_BYTES, REFRESH_SECONDS,
};
use crate::apm::number::{at_least, equal, equals, is_nan, less, less_than, ONE_BITS};
use crate::apm::schema::{Schema, DEFAULT_LATENCY_P99, TWO_BITS};
use crate::names::NameMap;
use crate::text::{decimal, occurs_in, same_text};

verus! {

/// A number: its bit pattern, and how it is shown.
#[derive(Debug)]
pub struct Reading {
    pub bits: u64,
    pub text: String,
}

/// Gauges by name.
pub type Gauges = NameMap<Reading>;

/// How a gauge is shown, if it is there.
pub open spec fn shown(gauges: Gauges, name: Seq<char>) -> Option<Seq<char>> {
    if gauges.values().contains_key(name) {
        Some(gauges.values()[name].text@)
    } else {
        None
    }
}

pub open spec fn shown_or(gauges: Gauges, name: Seq<char>, default: Seq<char>) -> Seq<char> {
    match shown(gauges, name) {
        Some(text) => text,
        None => default,
    }
}

/// The bit pattern of a gauge, if it is there.
pub open spec fn measured(gauges: Gauges, name: Seq<char>) -> Option<u64> {
    if gauges.values().contains_key(name) {
        Some(gauges.values()[name].bits)
    } else {
        None
    }
}

fn show(gauges: &Gauges, name: &str) -> (text: Option<String>)
    requires
        gauges.wf(),
    ensures
        match text {
            Some(text) => shown(*gauges, name@) == Some(text@),
            None => shown(*gauges, name@) is None,
        },
{
    match gauges.get(name) {
        Some(reading) => Some(reading.text.clone()),
        None => None,
    }
}

fn show_or(gauges: &Gauges, name: &str, default: &str) -> (text: String)
    requires
        gauges.wf(),
    ensures
        text@ == shown_or(*gauges, name@, default@),
{
    match show(gauges, name) {
        Some(text) => text,
        None => String::from_str(default),
    }
}

fn measure(gauges: &Gauges, name: &str) -> (bits: Option<u64>)
    requires
        gauges.wf(),
    ensures
        bits == measured(*gauges, name@),
{
    match gauges.get(name) {
        Some(reading) => Some(reading.bits),
        None => None,
    }
}

/// Whether a number is at least another.
pub open spec fn reaches(a: u64, b: u64) -> bool {
    less(b, a) || equal(a, b)
}

/// Whether a gauge is there and at least one.
pub open spec fn is_set(bits: Option<u64>) -> bool {
    bits is Some && reaches(bits->0, ONE_BITS)
}

fn set_gauge(bits: Option<u64>) -> (yes: bool)
    ensures
        yes == is_set(bits),
{
    match bits {
        Some(bits) => at_least(bits, ONE_BITS),
        None => false,
    }
}

pub open spec fn masthead_html(title: Seq<char>, environment: Seq<char>, hostname: Seq<char>) -> Seq<char> {
    "<header class=\"masthead\"><div class=\"brand\"><span class=\"mark\"></span><div><h1>"@ + escaped(title) + "</h1><p class=\"sub\">Valar Group</p></div></div><div class=\"tags\"><span class=\"pill env\">"@ + escaped(environment) + "</span><span class=\"pill\">"@ + escaped(hostname) + "</span></div></header>"@
}

/// Title and place.
pub fn masthead(title: &str, environment: &str, hostname: &str) -> (html: String)
    ensures
        html@ == masthead_html(title@, environment@, hostname@),
{
    let mut html = String::from_str("<header class=\"masthead\"><div class=\"brand\"><span class=\"mark\"></span><div><h1>");
    html.append(escape(title).as_str());
    html.append("</h1><p class=\"sub\">Valar Group</p></div></div><div class=\"tags\"><span class=\"pill env\">");
    html.append(escape(environment).as_str());
    html.append("</span><span class=\"pill\">");
    html.append(escape(hostname).as_str());
    html.append("</span></div></header>");
    html
}

/// When the last scrape was made.
#[derive(Clone, Copy, Debug, PartialEq, Eq, Structural)]
pub struct ScrapeTime {
    /// Whole seconds since; nothing for a time that is not in the past.
    pub elapsed_seconds: Option<u64>,
    /// Seconds since the Unix epoch.
    pub epoch_seconds: u64,
}

/// When the last scrape was made, in words.
pub open spec fn updated_html(last: Option<ScrapeTime>) -> Seq<char> {
    match last {
        Some(last) => "<span class=\"live\"></span>Updated "@ + age_text(last.elapsed_seconds)
            + " &middot; "@ + clock_text(last.epoch_seconds),
        None => "<span class=\"live\"></span>Awaiting first scrape"@,
    }
}

fn updated(last: Option<ScrapeTime>) -> (html: String)
    ensures
        html@ == updated_html(last),
{
    match last {
        Some(last) => {
            let mut html = String::from_str("<span class=\"live\"></span>Updated ");
            html.append(relative_time(last.elapsed_seconds).as_str());
            html.append(" &middot; ");
            html.append(time(last.epoch_seconds).as_str());
            html
        },
        None => String::from_str("<span class=\"live\"></span>Awaiting first scrape"),
    }
}

/// State of the scrapes and probes.
pub open spec fn statusbar_html(
    scrape_error: Option<Seq<char>>,
    last: Option<ScrapeTime>,
    health: Option<u16>,
    ready: Option<u16>,
) -> Seq<char> {
    "<div class=\"statusbar\"><div class=\"chips\">"@ + (match scrape_error {
        Some(error) => chip_html("scrape"@, escaped(error), false),
        None => chip_html("scrape"@, "ok"@, true),
    }) + status_chip_html("health"@, health) + status_chip_html("ready"@, ready)
        + "</div><div class=\"updated\">"@ + updated_html(last) + "</div></div>"@
}

/// An optional text as a value.
pub open spec fn text_view(text: Option<String>) -> Option<Seq<char>> {
    match text {
        Some(text) => Some(text@),
        None => None,
    }
}

/// State of the scrapes and probes.
pub fn statusbar(
    scrape_error: &Option<String>,
    last: Option<ScrapeTime>,
    health: Option<u16>,
    ready: Option<u16>,
) -> (html: String)
    ensures
        html@ == statusbar_html(text_view(*scrape_error), last, health, ready),
{
    let mut html = String::from_str("<div class=\"statusbar\"><div class=\"chips\">");
    match scrape_error {
        Some(error) => {
            html.append(chip("scrape", escape(error.as_str()).as_str(), false).as_str());
        },
        None => {
            html.append(chip("scrape", "ok", true).as_str());
        },
    }
    html.append(status_chip("health", health).as_str());
    html.append(status_chip("ready", ready).as_str());
    html.append("</div><div class=\"updated\">");
    html.append(updated(last).as_str());
    html.append("</div></div>");
    html
}

/// Quantiles of a latency, in seconds with three decimals.
#[derive(Debug)]
pub struct LatencyView {
    pub samples: String,
    pub p50: Option<Reading>,
    pub p95: Option<Reading>,
    pub p99: Option<Reading>,
}

/// Server errors of an endpoint: their count, their share of the requests in
/// percent, and how much of the error bar they fill.
#[derive(Debug)]
pub struct Failures {
    pub count: String,
    pub ratio_percent: String,
    pub fill_percent: String,
}

/// An endpoint on the page.
#[derive(Debug)]
pub struct EndpointRow {
    pub name: String,
    pub qps: String,
    pub in_flight: String,
    pub requests: String,
    /// Nothing where the count rounds to zero.
    pub failures: Option<Failures>,
    pub observed: LatencyView,
    pub processing: LatencyView,
    pub processing_in_flight: String,
    /// Whether the server reports processing times.
    pub processing_available: bool,
    /// Six tenths of the budget: where a latency is worth a warning.
    pub warn_level: u64,
    /// The budget, in seconds with three decimals.
    pub threshold_text: String,
}

/// Whether an endpoint is judged by its processing time.
pub open spec fn by_processing(schema: Schema, row: EndpointRow) -> bool {
    schema.processing_endpoints.members().contains(row.name@) || row.processing_available
}

fn uses_processing(schema: &Schema, row: &EndpointRow) -> (uses: bool)
    requires
        schema.wf(),
    ensures
        uses == by_processing(*schema, *row),
{
    schema.uses_processing(row.name.as_str()) || row.processing_available
}

/// The latency an endpoint is paged on.
pub fn alert_latency(row: &EndpointRow, uses_processing: bool) -> (latency: &LatencyView)
    ensures
        *latency == (if uses_processing {
            row.processing
        } else {
            row.observed
        }),
{
    if uses_processing {
        &row.processing
    } else {
        &row.observed
    }
}

/// The 95th percentile that an endpoint is paged on, unless it never is.
pub open spec fn paged_p95(schema: Schema, row: EndpointRow) -> Option<Reading> {
    if schema.informational_endpoints.members().contains(row.name@) {
        None
    } else if by_processing(schema, row) {
        row.processing.p95
    } else {
        row.observed.p95
    }
}

/// The greatest of these among the first `n` endpoints.
pub open spec fn worst_p95(schema: Schema, rows: Seq<EndpointRow>, n: int) -> Option<Reading>
    decreases n,
{
    if n <= 0 {
        None
    } else {
        let before = worst_p95(schema, rows, n - 1);
        let here = paged_p95(schema, rows[n - 1]);
        match (before, here) {
            (Some(most), Some(value)) => if less(most.bits, value.bits) || is_nan(most.bits) {
                here
            } else {
                before
            },
            (Some(_), None) => before,
            (None, _) => here,
        }
    }
}

fn find_worst_p95<'a>(schema: &Schema, rows: &'a Vec<EndpointRow>) -> (worst: Option<&'a Reading>)
    requires
        schema.wf(),
    ensures
        match worst {
            Some(reading) => worst_p95(*schema, rows@, rows@.len() as int) == Some(*reading),
            None => worst_p95(*schema, rows@, rows@.len() as int) is None,
        },
{
    let mut worst: Option<&'a Reading> = None;
    let mut i: usize = 0;
    while i < rows.len()
        invariant
            i <= rows.len(),
            schema.wf(),
            match worst {
                Some(reading) => worst_p95(*schema, rows@, i as int) == Some(*reading),
                None => worst_p95(*schema, rows@, i as int) is None,
            },
        decreases rows.len() - i,
    {
        let row = &rows[i];
        let here: Option<&'a Reading> = if schema.is_informational(row.name.as_str()) {
            None
        } else {
            match &alert_latency(row, uses_processing(schema, row)).p95 {
                Some(reading) => Some(reading),
                None => None,
            }
        };
        worst = match (worst, here) {
            (Some(most), Some(value)) => {
                if less_than(most.bits, value.bits) || !equals(most.bits, most.bits) {
                    Some(value)
                } else {
                    Some(most)
                }
            },
            (Some(most), None) => Some(most),
            (None, here) => here,
        };
        i = i + 1;
    }
    worst
}

/// Sums over all endpoints.
#[derive(Debug)]
pub struct Totals {
    /// Requests per second, with three decimals.
    pub qps: String,
    /// Server errors, rounded.
    pub errors: String,
    pub has_errors: bool,
}

/// The headline figures.
pub open spec fn kpis_html(
    schema: Schema,
    rows: Seq<EndpointRow>,
    totals: Totals,
    alerts: nat,
) -> Seq<char> {
    "<section class=\"kpis\">"@ + kpi_html("Throughput"@, totals.qps@, "req/s over 5m"@, ""@) + kpi_html(
        "Worst server p95"@,
        match worst_p95(schema, rows, rows.len() as int) {
            Some(reading) => reading.text@ + "s"@,
            None => "—"@,
        },
        "slowest alert basis"@,
        ""@,
    ) + kpi_html(
        "5xx responses"@,
        totals.errors@,
        "across all endpoints"@,
        if totals.has_errors {
            "bad"@
        } else {
            ""@
        },
    ) + kpi_html(
        "Active alerts"@,
        decimal(alerts),
        if alerts == 1 {
            "check firing"@
        } else {
            "checks firing"@
        },
        if alerts > 0 {
            "bad"@
        } else {
            ""@
        },
    ) + "</section>"@
}

/// The headline figures.
pub fn kpis(schema: &Schema, rows: &Vec<EndpointRow>, totals: &Totals, alerts: usize) -> (html: String)
    requires
        schema.wf(),
    ensures
        html@ == kpis_html(*schema, rows@, *totals, alerts as nat),
{
    let mut html = String::from_str("<section class=\"kpis\">");
    html.append(kpi("Throughput", totals.qps.as_str(), "req/s over 5m", "").as_str());
    let worst = match find_worst_p95(schema, rows) {
        Some(reading) => {
            let mut text = reading.text.clone();
            text.append("s");
            text
        },
        None => String::from_str("—"),
    };
    html.append(kpi("Worst server p95", worst.as_str(), "slowest alert basis", "").as_str());
    let error_tone: &str = if totals.has_errors {
        "bad"
    } else {
        ""
    };
    html.append(
        kpi("5xx responses", totals.errors.as_str(), "across all endpoints", error_tone).as_str(),
    );
    let unit: &str = if alerts == 1 {
        "check firing"
    } else {
        "checks firing"
    };
    let alert_tone: &str = if alerts > 0 {
        "bad"
    } else {
        ""
    };
    let count = decimal_text(alerts as u64);
    html.append(kpi("Active alerts", count.as_str(), unit, alert_tone).as_str());
    html.append("</section>");
    html
}

/// A budget: the limit, and where it is worth a warning.
#[derive(Clone, Copy, Debug, PartialEq, Eq, Structural)]
pub struct Budget {
    pub limit: u64,
    pub warn: u64,
}

/// How a latency stands to its budget.
pub open spec fn latency_tone(bits: u64, budget: Option<Budget>) -> Seq<char> {
    match budget {
        Some(budget) => if reaches(bits, budget.limit) {
            "bad"@
        } else if reaches(bits, budget.warn) {
            "warn"@
        } else {
            ""@
        },
        None => ""@,
    }
}

/// A latency in a table.
pub open spec fn latency_cell_html(value: Option<Reading>, budget: Option<Budget>) -> Seq<char> {
    match value {
        None => "<td class=\"muted\">—</td>"@,
        Some(reading) => "<td class=\""@ + latency_tone(reading.bits, budget) + "\">"@
            + reading.text@ + "s</td>"@,
    }
}

/// A latency in a table, graded against its budget.
pub fn latency_cell(value: &Option<Reading>, budget: Option<Budget>) -> (html: String)
    ensures
        html@ == latency_cell_html(*value, budget),
{
    match value {
        None => String::from_str("<td class=\"muted\">—</td>"),
        Some(reading) => {
            let tone: &str = match budget {
                Some(budget) => if at_least(reading.bits, budget.limit) {
                    "bad"
                } else if at_least(reading.bits, budget.warn) {
                    "warn"
                } else {
                    ""
                },
                None => "",
            };
            let mut html = String::from_str("<td class=\"");
            html.append(tone);
            html.append("\">");
            html.append(reading.text.as_str());
            html.append("s</td>");
            html
        },
    }
}

/// The three quantiles of a latency, in a table.
pub open spec fn latency_cells_html(latency: LatencyView, budget: Option<Budget>) -> Seq<char> {
    latency_cell_html(latency.p50, budget) + latency_cell_html(latency.p95, budget)
        + latency_cell_html(latency.p99, budget)
}

fn latency_cells(latency: &LatencyView, budget: Option<Budget>) -> (html: String)
    ensures
        html@ == latency_cells_html(*latency, budget),
{
    let mut html = latency_cell(&latency.p50, budget);
    html.append(latency_cell(&latency.p95, budget).as_str());
    html.append(latency_cell(&latency.p99, budget).as_str());
    html
}

pub open spec fn failure_figures_html(count: Seq<char>, ratio: Seq<char>, fill: Seq<char>) -> Seq<char> {
    "<span class=\"errcell\"><span class=\"bad\">"@ + count + " ("@ + ratio + "%)</span><span class=\"errbar\"><i style=\"width:"@ + fill + "%\"></i></span></span>"@
}

/// Server errors, with their bar.
fn failure_figures(count: &str, ratio: &str, fill: &str) -> (html: String)
    ensures
        html@ == failure_figures_html(count@, ratio@, fill@),
{
    let mut html = String::from_str("<span class=\"errcell\"><span class=\"bad\">");
    html.append(count);
    html.append(" (");
    html.append(ratio);
    html.append("%)</span><span class=\"errbar\"><i style=\"width:");
    html.append(fill);
    html.append("%\"></i></span></span>");
    html
}

/// Server errors in a table.
pub open spec fn error_cell_html(failures: Option<Failures>) -> Seq<char> {
    match failures {
        None => "<span class=\"muted\">0</span>"@,
        Some(failures) => failure_figures_html(
            failures.count@,
            failures.ratio_percent@,
            failures.fill_percent@,
        ),
    }
}

/// Server errors in a table. A count that is shown as zero is no error.
pub fn error_cell(failures: &Option<Failures>) -> (html: String)
    ensures
        html@ == error_cell_html(*failures),
{
    match failures {
        None => String::from_str("<span class=\"muted\">0</span>"),
        Some(failures) => failure_figures(
            failures.count.as_str(),
            failures.ratio_percent.as_str(),
            failures.fill_percent.as_str(),
        ),
    }
}

/// The budget for an endpoint's observed latency: none where it is judged by
/// its processing time.
pub open spec fn observed_row_budget(schema: Schema, row: EndpointRow) -> Option<Budget> {
    if by_processing(schema, row) {
        None
    } else {
        match schema.budget_of(row.name@) {
            Some(limit) => Some(Budget { limit, warn: row.warn_level }),
            None => None,
        }
    }
}

/// An endpoint in the table.
pub open spec fn endpoint_row_html(schema: Schema, row: EndpointRow) -> Seq<char> {
    "<tr><th>"@ + escaped(row.name@) + "</th><td>"@ + row.qps@ + "</td><td>"@ + row.in_flight@
        + "</td><td>"@ + row.requests@ + "</td>"@ + latency_cells_html(
        row.observed,
        observed_row_budget(schema, row),
    ) + "<td>"@ + error_cell_html(row.failures) + "</td></tr>"@
}

fn endpoint_row(schema: &Schema, row: &EndpointRow) -> (html: String)
    requires
        schema.wf(),
    ensures
        html@ == endpoint_row_html(*schema, *row),
{
    let budget: Option<Budget> = if uses_processing(schema, row) {
        None
    } else {
        match schema.latency_budget(row.name.as_str()) {
            Some(limit) => Some(Budget { limit, warn: row.warn_level }),
            None => None,
        }
    };
    let mut html = String::from_str("<tr><th>");
    html.append(escape(row.name.as_str()).as_str());
    html.append("</th><td>");
    html.append(row.qps.as_str());
    html.append("</td><td>");
    html.append(row.in_flight.as_str());
    html.append("</td><td>");
    html.append(row.requests.as_str());
    html.append("</td>");
    html.append(latency_cells(&row.observed, budget).as_str());
    html.append("<td>");
    html.append(error_cell(&row.failures).as_str());
    html.append("</td></tr>");
    html
}

/// Endpoints in the table.
pub open spec fn endpoint_rows_html(schema: Schema, items: Seq<EndpointRow>) -> Seq<char>
    decreases items.len(),
{
    if items.len() == 0 {
        ""@
    } else {
        endpoint_rows_html(schema, items.drop_last()) + endpoint_row_html(schema, items.last())
    }
}

fn endpoint_rows(schema: &Schema, items: &Vec<EndpointRow>) -> (html: String)
    requires
        schema.wf(),
    ensures
        html@ == endpoint_rows_html(*schema, items@),
{
    let mut html = String::from_str("");
    let mut i: usize = 0;
    assert(items@.take(0).len() == 0);
    while i < items.len()
        invariant
            i <= items.len(),
            schema.wf(),
            html@ == endpoint_rows_html(*schema, items@.take(i as int)),
        decreases items.len() - i,
    {
        assert(items@.take(i + 1).drop_last() =~= items@.take(i as int));
        html.append(endpoint_row(schema, &items[i]).as_str());
        i = i + 1;
    }
    assert(items@.take(i as int) =~= items@);
    html
}

/// The table of endpoints.
pub open spec fn endpoint_table_html(schema: Schema, rows: Seq<EndpointRow>) -> Seq<char> {
    "<section class=\"card\"><p class=\"eyebrow\">Observed PIR request latency &middot; 5 minute window</p><div class=\"wrap\"><table><thead><tr><th>Endpoint</th><th>QPS</th><th>Inflight</th><th>Requests</th><th>p50</th><th>p95</th><th>p99</th><th>5xx</th></tr></thead><tbody>"@
        + endpoint_rows_html(schema, rows) + "</tbody></table></div></section>"@
}

/// The table of endpoints.
pub fn endpoint_table(schema: &Schema, rows: &Vec<EndpointRow>) -> (html: String)
    requires
        schema.wf(),
    ensures
        html@ == endpoint_table_html(*schema, rows@),
{
    let mut html = String::from_str(
        "<section class=\"card\"><p class=\"eyebrow\">Observed PIR request latency &middot; 5 minute window</p><div class=\"wrap\"><table><thead><tr><th>Endpoint</th><th>QPS</th><th>Inflight</th><th>Requests</th><th>p50</th><th>p95</th><th>p99</th><th>5xx</th></tr></thead><tbody>",
    );
    html.append(endpoint_rows(schema, rows).as_str());
    html.append("</tbody></table></div></section>");
    html
}

/// One stage of a request.
pub open spec fn latency_split_row_html(
    label: Seq<char>,
    latency: LatencyView,
    in_flight: Seq<char>,
    budget: Option<Budget>,
    policy: Seq<char>,
) -> Seq<char> {
    "<tr><th>"@ + escaped(label) + "</th><td>"@ + latency.samples@ + "</td><td>"@ + in_flight
        + "</td>"@ + latency_cells_html(latency, budget) + "<td class=\"muted\">"@ + escaped(policy)
        + "</td></tr>"@
}

fn latency_split_row(
    label: &str,
    latency: &LatencyView,
    in_flight: &str,
    budget: Option<Budget>,
    policy: &str,
) -> (html: String)
    ensures
        html@ == latency_split_row_html(label@, *latency, in_flight@, budget, policy@),
{
    let mut html = String::from_str("<tr><th>");
    html.append(escape(label).as_str());
    html.append("</th><td>");
    html.append(latency.samples.as_str());
    html.append("</td><td>");
    html.append(in_flight);
    html.append("</td>");
    html.append(latency_cells(latency, budget).as_str());
    html.append("<td class=\"muted\">");
    html.append(escape(policy).as_str());
    html.append("</td></tr>");
    html
}

/// The limit an endpoint's processing time is held to.
pub open spec fn processing_limit(schema: Schema, name: Seq<char>) -> u64 {
    match schema.budget_of(name) {
        Some(limit) => limit,
        None => DEFAULT_LATENCY_P99,
    }
}

/// Observed and processing time of an endpoint, side by side.
pub open spec fn latency_split_html(schema: Schema, row: EndpointRow) -> Seq<char> {
    "<section class=\"card\"><p class=\"eyebrow\">"@ + escaped(row.name@)
        + " latency split &middot; 5 minute window</p><div class=\"wrap\"><table><thead><tr><th>Stage</th><th>Samples</th><th>Inflight</th><th>p50</th><th>p95</th><th>p99</th><th>Alerting</th></tr></thead><tbody>"@
        + latency_split_row_html(
        "Observed total"@,
        row.observed,
        row.in_flight@,
        None,
        "informational"@,
    ) + latency_split_row_html(
        "Server processing"@,
        row.processing,
        row.processing_in_flight@,
        Some(Budget { limit: processing_limit(schema, row.name@), warn: row.warn_level }),
        "pages on p99"@,
    )
        + "</tbody></table></div><p class=\"note\"><strong>Alert basis.</strong> Server processing begins after the complete request body reaches the coordinator and is the only distribution evaluated against the "@
        + row.threshold_text@
        + "s p99 latency threshold. Body-receive timing is not rendered here.</p></section>"@
}

fn processing_latency_split(schema: &Schema, row: &EndpointRow) -> (html: String)
    requires
        schema.wf(),
    ensures
        html@ == latency_split_html(*schema, *row),
{
    let limit: u64 = match schema.latency_budget(row.name.as_str()) {
        Some(limit) => limit,
        None => DEFAULT_LATENCY_P99,
    };
    let mut html = String::from_str("<section class=\"card\"><p class=\"eyebrow\">");
    html.append(escape(row.name.as_str()).as_str());
    html.append(
        " latency split &middot; 5 minute window</p><div class=\"wrap\"><table><thead><tr><th>Stage</th><th>Samples</th><th>Inflight</th><th>p50</th><th>p95</th><th>p99</th><th>Alerting</th></tr></thead><tbody>",
    );
    html.append(
        latency_split_row(
            "Observed total",
            &row.observed,
            row.in_flight.as_str(),
            None,
            "informational",
        ).as_str(),
    );
    html.append(
        latency_split_row(
            "Server processing",
            &row.processing,
            row.processing_in_flight.as_str(),
            Some(Budget { limit, warn: row.warn_level }),
            "pages on p99",
        ).as_str(),
    );
    html.append(
        "</tbody></table></div><p class=\"note\"><strong>Alert basis.</strong> Server processing begins after the complete request body reaches the coordinator and is the only distribution evaluated against the ",
    );
    html.append(row.threshold_text.as_str());
    html.append(
        "s p99 latency threshold. Body-receive timing is not rendered here.</p></section>",
    );
    html
}

/// A split for an endpoint that is judged by its processing time, nothing for
/// another.
pub open spec fn split_if_html(schema: Schema, row: EndpointRow) -> Seq<char> {
    if by_processing(schema, row) {
        latency_split_html(schema, row)
    } else {
        ""@
    }
}

fn split_if(schema: &Schema, row: &EndpointRow) -> (html: String)
    requires
        schema.wf(),
    ensures
        html@ == split_if_html(*schema, *row),
{
    if uses_processing(schema, row) {
        processing_latency_split(schema, row)
    } else {
        String::from_str("")
    }
}

/// One split per endpoint that is judged by its processing time.
pub open spec fn processing_latency_splits_html(schema: Schema, items: Seq<EndpointRow>) -> Seq<char>
    decreases items.len(),
{
    if items.len() == 0 {
        ""@
    } else {
        processing_latency_splits_html(schema, items.drop_last()) + split_if_html(schema, items.last())
    }
}

fn processing_latency_splits(schema: &Schema, items: &Vec<EndpointRow>) -> (html: String)
    requires
        schema.wf(),
    ensures
        html@ == processing_latency_splits_html(*schema, items@),
{
    let mut html = String::from_str("");
    let mut i: usize = 0;
    assert(items@.take(0).len() == 0);
    while i < items.len()
        invariant
            i <= items.len(),
            schema.wf(),
            html@ == processing_latency_splits_html(*schema, items@.take(i as int)),
        decreases items.len() - i,
    {
        assert(items@.take(i + 1).drop_last() =~= items@.take(i as int));
        html.append(split_if(schema, &items[i]).as_str());
        i = i + 1;
    }
    assert(items@.take(i as int) =~= items@);
    html
}

/// Memory of a worker's host.
#[derive(Clone, Copy, Debug, PartialEq, Eq, Structural)]
pub struct MemoryView {
    pub has_total: bool,
    pub total_bytes: u64,
    pub has_available: bool,
    pub available_bytes: u64,
    pub used_bytes: u64,
    /// Resident memory of the worker process, where it is above zero.
    pub rss_bytes: Option<u64>,
}

/// How free memory stands to what a host needs.
pub open spec fn memory_tone(available: u64) -> Seq<char> {
    if available < MEMORY_AVAILABLE_BYTES {
        "bad"@
    } else if available < 2 * MEMORY_AVAILABLE_BYTES {
        "warn"@
    } else {
        ""@
    }
}

fn memory_grade(available: u64) -> (tone: &'static str)
    ensures
        tone@ == memory_tone(available),
{
    if available < MEMORY_AVAILABLE_BYTES {
        "bad"
    } else if available < 2 * MEMORY_AVAILABLE_BYTES {
        "warn"
    } else {
        ""
    }
}

/// Resident memory in words, where it is known.
pub open spec fn rss_html(rss: Option<u64>) -> Seq<char> {
    match rss {
        Some(bytes) => " &middot; rss "@ + size_text(bytes),
        None => ""@,
    }
}

/// Memory of a worker's host in words. Nothing where it is not known; the
/// total alone where what is available is not.
pub open spec fn worker_ram_html(memory: Option<MemoryView>) -> Seq<char> {
    match memory {
        None => ""@,
        Some(memory) => if !memory.has_total {
            ""@
        } else if !memory.has_available {
            "<p class=\"meta\">RAM "@ + size_text(memory.total_bytes) + " total"@ + rss_html(
                memory.rss_bytes,
            ) + "</p>"@
        } else {
            "<p class=\"meta"@ + tone_suffix(memory_tone(memory.available_bytes)) + "\">RAM "@
                + size_text(memory.used_bytes) + " used of "@ + size_text(memory.total_bytes)
                + rss_html(memory.rss_bytes) + "</p>"@
        },
    }
}

/// Memory of a worker's host in words.
pub fn worker_ram_line(memory: &Option<MemoryView>) -> (html: String)
    ensures
        html@ == worker_ram_html(*memory),
{
    let memory = match memory {
        Some(memory) => memory,
        None => {
            return String::from_str("");
        },
    };
    if !memory.has_total {
        return String::from_str("");
    }
    let rss = match memory.rss_bytes {
        Some(bytes) => {
            let mut text = String::from_str(" &middot; rss ");
            text.append(bytes_human(bytes).as_str());
            text
        },
        None => String::from_str(""),
    };
    if !memory.has_available {
        let mut html = String::from_str("<p class=\"meta\">RAM ");
        html.append(bytes_human(memory.total_bytes).as_str());
        html.append(" total");
        html.append(rss.as_str());
        html.append("</p>");
        return html;
    }
    let mut html = String::from_str("<p class=\"meta");
    html.append(class_suffix(memory_grade(memory.available_bytes)).as_str());
    html.append("\">RAM ");
    html.append(bytes_human(memory.used_bytes).as_str());
    html.append(" used of ");
    html.append(bytes_human(memory.total_bytes).as_str());
    html.append(rss.as_str());
    html.append("</p>");
    html
}

/// A worker's share of a table.
#[derive(Debug)]
pub struct ShareView {
    pub table: String,
    /// Position in the table's pool, if it is known.
    pub index: Option<u64>,
    /// The shards that belong to the position, in words.
    pub owned: String,
    pub assigned: String,
    pub positions: String,
}

impl Ranked for ShareView {
    open spec fn place(&self) -> int {
        rank_of(self.table@) as int
    }

    open spec fn label(&self) -> Seq<char> {
        self.table@
    }

    fn rank(&self) -> (rank: u64) {
        table_rank(self.table.as_str()) as u64
    }

    fn name(&self) -> (name: &str) {
        self.table.as_str()
    }
}

/// A share in words.
pub open spec fn share_html(share: ShareView) -> Seq<char> {
    "<p class=\"kv\"><b>"@ + escaped(share.table@) + "</b> "@ + share.owned@ + " &middot; "@
        + share.assigned@ + " assigned &middot; "@ + share.positions@ + " positions</p>"@
}

fn share_line(share: &ShareView) -> (html: String)
    ensures
        html@ == share_html(*share),
{
    let mut html = String::from_str("<p class=\"kv\"><b>");
    html.append(escape(share.table.as_str()).as_str());
    html.append("</b> ");
    html.append(share.owned.as_str());
    html.append(" &middot; ");
    html.append(share.assigned.as_str());
    html.append(" assigned &middot; ");
    html.append(share.positions.as_str());
    html.append(" positions</p>");
    html
}

/// A worker's shares.
pub open spec fn share_lines_html(items: Seq<ShareView>) -> Seq<char>
    decreases items.len(),
{
    if items.len() == 0 {
        ""@
    } else {
        share_lines_html(items.drop_last()) + share_html(items.last())
    }
}

fn share_lines(items: &Vec<ShareView>) -> (html: String)
    ensures
        html@ == share_lines_html(items@),
{
    let mut html = String::from_str("");
    let mut i: usize = 0;
    assert(items@.take(0).len() == 0);
    while i < items.len()
        invariant
            i <= items.len(),
            html@ == share_lines_html(items@.take(i as int)),
        decreases items.len() - i,
    {
        assert(items@.take(i + 1).drop_last() =~= items@.take(i as int));
        html.append(share_line(&items[i]).as_str());
        i = i + 1;
    }
    assert(items@.take(i as int) =~= items@);
    html
}

/// A worker on the page.
#[derive(Debug)]
pub struct WorkerView {
    pub name: String,
    /// Position across all pools; infinity where it is not known.
    pub index: u64,
    pub up: Option<u64>,
    /// Zero where it is not known.
    pub generation: u64,
    pub shares: Vec<ShareView>,
    pub memory: Option<MemoryView>,
}

impl Ranked for WorkerView {
    open spec fn place(&self) -> int {
        pattern_rank(self.index)
    }

    open spec fn label(&self) -> Seq<char> {
        self.name@
    }

    fn rank(&self) -> (rank: u64) {
        rank_of_pattern(self.index)
    }

    fn name(&self) -> (name: &str) {
        self.name.as_str()
    }
}

/// Tone and words for a worker's state: it is up, up with another generation
/// than the coordinator's, down, or not known.
pub open spec fn worker_state(up: Option<u64>, own: u64, newest: u64) -> (Seq<char>, Seq<char>) {
    match up {
        None => (""@, "unknown"@),
        Some(up) => if !reaches(up, ONE_BITS) {
            ("is-bad"@, "unreachable"@)
        } else if less(0, newest) && less(0, own) && !equal(own, newest) {
            ("is-warn"@, "generation lag"@)
        } else {
            ("is-ok"@, "healthy"@)
        },
    }
}

fn state_of(up: Option<u64>, own: u64, newest: u64) -> (state: (&'static str, &'static str))
    ensures
        (state.0@, state.1@) == worker_state(up, own, newest),
{
    match up {
        None => ("", "unknown"),
        Some(up) => if !at_least(up, ONE_BITS) {
            ("is-bad", "unreachable")
        } else if less_than(0, newest) && less_than(0, own) && !equals(own, newest) {
            ("is-warn", "generation lag")
        } else {
            ("is-ok", "healthy")
        },
    }
}

/// A worker in the topology.
pub open spec fn worker_html(newest: u64, worker: WorkerView) -> Seq<char> {
    "<div class=\"leaf\"><div class=\"node "@ + worker_state(
        worker.up,
        worker.generation,
        newest,
    ).0 + "\"><p class=\"role\">Worker</p><p class=\"id\">"@ + escaped(worker.name@)
        + "</p><p class=\"desc\">Holds sealed iPIR artifacts for its shards and evaluates its slice of every query.</p>"@
        + share_lines_html(worker.shares@) + worker_ram_html(worker.memory)
        + "<span class=\"state\">"@ + worker_state(worker.up, worker.generation, newest).1
        + "</span></div></div>"@
}

fn worker_leaf(newest: &u64, worker: &WorkerView) -> (html: String)
    ensures
        html@ == worker_html(*newest, *worker),
{
    let (tone, state) = state_of(worker.up, worker.generation, *newest);
    let mut html = String::from_str("<div class=\"leaf\"><div class=\"node ");
    html.append(tone);
    html.append("\"><p class=\"role\">Worker</p><p class=\"id\">");
    html.append(escape(worker.name.as_str()).as_str());
    html.append(
        "</p><p class=\"desc\">Holds sealed iPIR artifacts for its shards and evaluates its slice of every query.</p>",
    );
    html.append(share_lines(&worker.shares).as_str());
    html.append(worker_ram_line(&worker.memory).as_str());
    html.append("<span class=\"state\">");
    html.append(state);
    html.append("</span></div></div>");
    html
}

/// Workers in the topology.
pub open spec fn worker_leaves_html(newest: u64, items: Seq<WorkerView>) -> Seq<char>
    decreases items.len(),
{
    if items.len() == 0 {
        ""@
    } else {
        worker_leaves_html(newest, items.drop_last()) + worker_html(newest, items.last())
    }
}

fn worker_leaves(newest: &u64, items: &Vec<WorkerView>) -> (html: String)
    ensures
        html@ == worker_leaves_html(*newest, items@),
{
    let mut html = String::from_str("");
    let mut i: usize = 0;
    assert(items@.take(0).len() == 0);
    while i < items.len()
        invariant
            i <= items.len(),
            html@ == worker_leaves_html(*newest, items@.take(i as int)),
        decreases items.len() - i,
    {
        assert(items@.take(i + 1).drop_last() =~= items@.take(i as int));
        html.append(worker_leaf(newest, &items[i]).as_str());
        i = i + 1;
    }
    assert(items@.take(i as int) =~= items@);
    html
}

/// Bit patterns of three, four and minus one.
pub const THREE_BITS: u64 = 0x4008_0000_0000_0000;

pub const FOUR_BITS: u64 = 0x4010_0000_0000_0000;

pub const MINUS_ONE_BITS: u64 = 0xbff0_0000_0000_0000;

/// The phase of a code, whose fraction does not count.
pub open spec fn phase_words(code: u64) -> Seq<char> {
    if is_nan(code) || (less(MINUS_ONE_BITS, code) && less(code, ONE_BITS)) {
        "syncing"@
    } else if reaches(code, ONE_BITS) && less(code, TWO_BITS) {
        "building"@
    } else if reaches(code, TWO_BITS) && less(code, THREE_BITS) {
        "serving"@
    } else if reaches(code, THREE_BITS) && less(code, FOUR_BITS) {
        "failed"@
    } else {
        "unknown"@
    }
}

/// The phase of a code.
pub fn phase_label(code: u64) -> (label: &'static str)
    ensures
        label@ == phase_words(code),
{
    if !equals(code, code) || (less_than(MINUS_ONE_BITS, code) && less_than(code, ONE_BITS)) {
        "syncing"
    } else if at_least(code, ONE_BITS) && less_than(code, TWO_BITS) {
        "building"
    } else if at_least(code, TWO_BITS) && less_than(code, THREE_BITS) {
        "serving"
    } else if at_least(code, THREE_BITS) && less_than(code, FOUR_BITS) {
        "failed"
    } else {
        "unknown"
    }
}

/// A gauge of the snapshot.
pub open spec fn snapshot_name(schema: Schema, name: Seq<char>) -> Seq<char> {
    schema.gauge_prefix@ + name
}

fn snapshot_gauge(schema: &Schema, name: &str) -> (full: String)
    ensures
        full@ == snapshot_name(*schema, name@),
{
    let mut full = schema.gauge_prefix.clone();
    full.append(name);
    full
}

/// Phase, anchor and generation of the coordinator.
pub open spec fn coordinator_meta_html(schema: Schema, gauges: Gauges) -> Seq<char> {
    (match measured(gauges, snapshot_name(schema, "phase_code"@)) {
        Some(code) => phase_words(code),
        None => "unknown"@,
    }) + " &middot; anchor "@ + shown_or(gauges, snapshot_name(schema, "anchor_height"@), "—"@)
        + " &middot; generation "@ + shown_or(gauges, snapshot_name(schema, "generation"@), "0"@)
}

fn coordinator_meta(schema: &Schema, gauges: &Gauges) -> (html: String)
    requires
        gauges.wf(),
    ensures
        html@ == coordinator_meta_html(*schema, *gauges),
{
    let phase: &str = match measure(gauges, snapshot_gauge(schema, "phase_code").as_str()) {
        Some(code) => phase_label(code),
        None => "unknown",
    };
    let mut html = String::from_str(phase);
    html.append(" &middot; anchor ");
    html.append(
        show_or(gauges, snapshot_gauge(schema, "anchor_height").as_str(), "—").as_str(),
    );
    html.append(" &middot; generation ");
    html.append(show_or(gauges, snapshot_gauge(schema, "generation").as_str(), "0").as_str());
    html
}

/// Generations and outputs of the coordinator, as far as they are known.
pub open spec fn coordinator_extent_html(schema: Schema, gauges: Gauges) -> Seq<char> {
    let kept = shown(gauges, snapshot_name(schema, "retained_generations"@));
    let size = shown(gauges, snapshot_name(schema, "ironwood_tree_size"@));
    match (kept, size) {
        (None, None) => ""@,
        (Some(kept), None) => "<p class=\"meta\">"@ + kept + " generations answerable</p>"@,
        (None, Some(size)) => "<p class=\"meta\">"@ + size + " outputs indexed</p>"@,
        (Some(kept), Some(size)) => "<p class=\"meta\">"@ + kept
            + " generations answerable &middot; "@ + size + " outputs indexed</p>"@,
    }
}

fn coordinator_extent(schema: &Schema, gauges: &Gauges) -> (html: String)
    requires
        gauges.wf(),
    ensures
        html@ == coordinator_extent_html(*schema, *gauges),
{
    let kept = show(gauges, snapshot_gauge(schema, "retained_generations").as_str());
    let size = show(gauges, snapshot_gauge(schema, "ironwood_tree_size").as_str());
    match (kept, size) {
        (None, None) => String::from_str(""),
        (Some(kept), None) => {
            let mut html = String::from_str("<p class=\"meta\">");
            html.append(kept.as_str());
            html.append(" generations answerable</p>");
            html
        },
        (None, Some(size)) => {
            let mut html = String::from_str("<p class=\"meta\">");
            html.append(size.as_str());
            html.append(" outputs indexed</p>");
            html
        },
        (Some(kept), Some(size)) => {
            let mut html = String::from_str("<p class=\"meta\">");
            html.append(kept.as_str());
            html.append(" generations answerable &middot; ");
            html.append(size.as_str());
            html.append(" outputs indexed</p>");
            html
        },
    }
}

/// The generation of the snapshot; zero where it is not known.
pub open spec fn newest_generation(schema: Schema, gauges: Gauges) -> u64 {
    match measured(gauges, snapshot_name(schema, "generation"@)) {
        Some(bits) => bits,
        None => 0,
    }
}

/// The workers, or that there are none.
pub open spec fn leaves_html(newest: u64, workers: Seq<WorkerView>) -> Seq<char> {
    if workers.len() == 0 {
        "<div class=\"leaf\"><div class=\"node\"><p class=\"role\">Workers</p><p class=\"id muted\">none reported yet</p></div></div>"@
    } else {
        worker_leaves_html(newest, workers)
    }
}

/// Chain source, coordinator and workers, then the tables.
pub open spec fn fleet_card_html(
    schema: Schema,
    hostname: Seq<char>,
    gauges: Gauges,
    workers: Seq<WorkerView>,
    tables: Seq<TableView>,
) -> Seq<char> {
    "<section class=\"card\"><p class=\"eyebrow\">Fleet topology</p><div class=\"topo\"><div class=\"node\"><p class=\"role\">Chain source</p><p class=\"id\">zakurad archive node</p><p class=\"desc\">Same host, loopback RPC. The only source of finalized blocks and the Ironwood tree size.</p></div><div class=\"trunk\"></div><div class=\"node coord\"><p class=\"role\">Coordinator</p><p class=\"id\">"@ + escaped(hostname) + "</p><p class=\"desc\">Ingests finalized outputs into the Enhance journal, publishes one generation per block, and fans each query out to the workers. Clients enter over HTTPS through Caddy.</p><p class=\"meta\">"@ + coordinator_meta_html(schema, gauges)
        + "</p>"@ + coordinator_extent_html(schema, gauges) + "</div><div class=\"trunk\"></div><div class=\"bus\">"@ + leaves_html(
        newest_generation(schema, gauges),
        workers,
    ) + "</div>"@ + tables_section_html(tables) + "</div><p class=\"note\">Workers are probed by the coordinator on each scrape over the private network; only their inventory names are shown. A worker whose generation trails the coordinator's is still serving the previous snapshot.</p></section>"@
}

/// Chain source, coordinator and workers, then the tables. Only names of the
/// inventory are shown, never an address.
pub fn fleet_card(
    schema: &Schema,
    hostname: &str,
    gauges: &Gauges,
    workers: &Vec<WorkerView>,
    tables: &Vec<TableView>,
) -> (html: String)
    requires
        gauges.wf(),
        tables_wf(tables@),
    ensures
        html@ == fleet_card_html(*schema, hostname@, *gauges, workers@, tables@),
{
    let newest: u64 = match measure(gauges, snapshot_gauge(schema, "generation").as_str()) {
        Some(bits) => bits,
        None => 0,
    };
    let mut html = String::from_str("<section class=\"card\"><p class=\"eyebrow\">Fleet topology</p><div class=\"topo\"><div class=\"node\"><p class=\"role\">Chain source</p><p class=\"id\">zakurad archive node</p><p class=\"desc\">Same host, loopback RPC. The only source of finalized blocks and the Ironwood tree size.</p></div><div class=\"trunk\"></div><div class=\"node coord\"><p class=\"role\">Coordinator</p><p class=\"id\">");
    html.append(escape(hostname).as_str());
    html.append("</p><p class=\"desc\">Ingests finalized outputs into the Enhance journal, publishes one generation per block, and fans each query out to the workers. Clients enter over HTTPS through Caddy.</p><p class=\"meta\">");
    html.append(coordinator_meta(schema, gauges).as_str());
    html.append("</p>");
    html.append(coordinator_extent(schema, gauges).as_str());
    html.append("</div><div class=\"trunk\"></div><div class=\"bus\">");
    if workers.len() == 0 {
        html.append(
            "<div class=\"leaf\"><div class=\"node\"><p class=\"role\">Workers</p><p class=\"id muted\">none reported yet</p></div></div>",
        );
    } else {
        html.append(worker_leaves(&newest, workers).as_str());
    }
    html.append("</div>");
    html.append(tables_section(tables).as_str());
    html.append("</div><p class=\"note\">Workers are probed by the coordinator on each scrape over the private network; only their inventory names are shown. A worker whose generation trails the coordinator's is still serving the previous snapshot.</p></section>");
    html
}

/// Figures of how full a table is.
#[derive(Debug)]
pub struct CapacityFigures {
    pub positions: String,
    pub position_capacity: String,
    pub shards_used: String,
    pub shard_capacity: String,
    /// Positions over their capacity.
    pub ratio: u64,
    /// The same in percent: whole, and with one decimal.
    pub whole_percent: String,
    pub percent: String,
}

/// A worker that holds shards of a table.
#[derive(Debug)]
pub struct Holder {
    pub worker: String,
    pub index: u64,
    pub owned: String,
}

impl Ranked for Holder {
    open spec fn place(&self) -> int {
        pattern_rank(self.index)
    }

    open spec fn label(&self) -> Seq<char> {
        self.worker@
    }

    fn rank(&self) -> (rank: u64) {
        rank_of_pattern(self.index)
    }

    fn name(&self) -> (name: &str) {
        self.worker.as_str()
    }
}

/// The share that a worker has of a table with a known index, if any: the
/// last one where there are more.
pub open spec fn held_share(shares: Seq<ShareView>, table: Seq<char>) -> Option<(u64, Seq<char>)>
    decreases shares.len(),
{
    if shares.len() == 0 {
        None
    } else if shares.last().table@ == table && shares.last().index is Some {
        Some((shares.last().index->0, shares.last().owned@))
    } else {
        held_share(shares.drop_last(), table)
    }
}

/// What a worker reports of its tables.
#[derive(Debug)]
pub struct WorkerShares {
    pub worker: String,
    pub shares: Vec<ShareView>,
}

/// Holders of a table among workers, in the order of the workers.
pub open spec fn holder_views(workers: Seq<WorkerShares>, table: Seq<char>) -> Seq<
    (Seq<char>, u64, Seq<char>),
>
    decreases workers.len(),
{
    if workers.len() == 0 {
        Seq::empty()
    } else {
        let head = holder_views(workers.drop_last(), table);
        match held_share(workers.last().shares@, table) {
            Some((index, owned)) => head.push((workers.last().worker@, index, owned)),
            None => head,
        }
    }
}

/// Holders as values.
pub open spec fn holders_seen(holders: Seq<Holder>) -> Seq<(Seq<char>, u64, Seq<char>)> {
    holders.map_values(|holder: Holder| (holder.worker@, holder.index, holder.owned@))
}

fn find_share(shares: &Vec<ShareView>, table: &str) -> (held: Option<(u64, String)>)
    ensures
        match held {
            Some((index, owned)) => held_share(shares@, table@) == Some((index, owned@)),
            None => held_share(shares@, table@) is None,
        },
{
    let mut n: usize = shares.len();
    assert(shares@.take(n as int) =~= shares@);
    while n > 0
        invariant
            n <= shares.len(),
            held_share(shares@, table@) == held_share(shares@.take(n as int), table@),
        decreases n,
    {
        assert(shares@.take(n as int).drop_last() =~= shares@.take(n - 1));
        if same_text(shares[n - 1].table.as_str(), table) {
            if let Some(index) = shares[n - 1].index {
                return Some((index, shares[n - 1].owned.clone()));
            }
        }
        n = n - 1;
    }
    None
}

/// Holders of a table, in the order of the workers.
pub fn holders_of(workers: &Vec<WorkerShares>, table: &str) -> (holders: Vec<Holder>)
    ensures
        holders_seen(holders@) == holder_views(workers@, table@),
{
    let mut holders: Vec<Holder> = Vec::new();
    let mut i: usize = 0;
    assert(holders_seen(holders@) =~= holder_views(workers@.take(0), table@));
    while i < workers.len()
        invariant
            i <= workers.len(),
            holders_seen(holders@) == holder_views(workers@.take(i as int), table@),
        decreases workers.len() - i,
    {
        assert(workers@.take(i + 1).drop_last() =~= workers@.take(i as int));
        let ghost before = holders_seen(holders@);
        if let Some((index, owned)) = find_share(&workers[i].shares, table) {
            let holder = Holder { worker: workers[i].worker.clone(), index, owned };
            let ghost seen = (holder.worker@, holder.index, holder.owned@);
            holders.push(holder);
            assert(holders_seen(holders@) =~= before.push(seen));
        }
        i = i + 1;
    }
    assert(workers@.take(i as int) =~= workers@);
    holders
}

/// A table on the page.
#[derive(Debug)]
pub struct TableView {
    pub name: String,
    pub gauges: Gauges,
    pub capacity: Option<CapacityFigures>,
    pub holders: Vec<Holder>,
}

impl Ranked for TableView {
    open spec fn place(&self) -> int {
        rank_of(self.name@) as int
    }

    open spec fn label(&self) -> Seq<char> {
        self.name@
    }

    fn rank(&self) -> (rank: u64) {
        table_rank(self.name.as_str()) as u64
    }

    fn name(&self) -> (name: &str) {
        self.name.as_str()
    }
}

pub open spec fn tables_wf(tables: Seq<TableView>) -> bool {
    forall|i: int| 0 <= i < tables.len() ==> (#[trigger] tables[i]).gauges.wf()
}

pub open spec fn layout_line_html(per_row: Seq<char>, bytes: Seq<char>, rows: Seq<char>, positions: Seq<char>) -> Seq<char> {
    "<p class=\"kv\">"@ + per_row + " &times; "@ + bytes + " B per row &middot; "@ + rows + " rows per shard &middot; <b>"@ + positions + "</b> positions per shard</p>"@
}

/// A table's layout in words.
fn layout_line(per_row: &str, bytes: &str, rows: &str, positions: &str) -> (html: String)
    ensures
        html@ == layout_line_html(per_row@, bytes@, rows@, positions@),
{
    let mut html = String::from_str("<p class=\"kv\">");
    html.append(per_row);
    html.append(" &times; ");
    html.append(bytes);
    html.append(" B per row &middot; ");
    html.append(rows);
    html.append(" rows per shard &middot; <b>");
    html.append(positions);
    html.append("</b> positions per shard</p>");
    html
}

/// A table's layout in words, where all of it is known.
pub open spec fn table_layout_html(gauges: Gauges) -> Seq<char> {
    let per_row = shown(gauges, "records_per_row"@);
    let bytes = shown(gauges, "record_bytes"@);
    let rows = shown(gauges, "shard_rows"@);
    let positions = shown(gauges, "shard_positions"@);
    if per_row is Some && bytes is Some && rows is Some && positions is Some {
        layout_line_html(per_row->0, bytes->0, rows->0, positions->0)
    } else {
        ""@
    }
}

fn table_layout(gauges: &Gauges) -> (html: String)
    requires
        gauges.wf(),
    ensures
        html@ == table_layout_html(*gauges),
{
    let per_row = show(gauges, "records_per_row");
    let bytes = show(gauges, "record_bytes");
    let rows = show(gauges, "shard_rows");
    let positions = show(gauges, "shard_positions");
    match (per_row, bytes, rows, positions) {
        (Some(per_row), Some(bytes), Some(rows), Some(positions)) => layout_line(
            per_row.as_str(),
            bytes.as_str(),
            rows.as_str(),
            positions.as_str(),
        ),
        _ => String::from_str(""),
    }
}

pub open spec fn planned_table_html(name: Seq<char>, layout: Seq<char>) -> Seq<char> {
    "<div class=\"node planned\"><p class=\"role\">Table</p><p class=\"id\">"@ + escaped(name) + "</p>"@ + layout + "<span class=\"state\">planned &middot; not registered</span></div>"@
}

/// A table that is not served.
fn planned_table(name: &str, layout: &str) -> (html: String)
    ensures
        html@ == planned_table_html(name@, layout@),
{
    let mut html = String::from_str("<div class=\"node planned\"><p class=\"role\">Table</p><p class=\"id\">");
    html.append(escape(name).as_str());
    html.append("</p>");
    html.append(layout);
    html.append("<span class=\"state\">planned &middot; not registered</span></div>");
    html
}

pub open spec fn usage_line_html(shards: Seq<char>, sealed: Seq<char>, positions: Seq<char>, pool: Seq<char>, slots: Seq<char>) -> Seq<char> {
    "<p class=\"kv\"><b>"@ + shards + "</b> shards ("@ + sealed + " sealed) &middot; <b>"@ + positions + "</b> positions &middot; "@ + pool + " workers &middot; "@ + slots + " query slots free</p>"@
}

/// A table's use in words.
fn usage_line(shards: &str, sealed: &str, positions: &str, pool: &str, slots: &str) -> (html: String)
    ensures
        html@ == usage_line_html(shards@, sealed@, positions@, pool@, slots@),
{
    let mut html = String::from_str("<p class=\"kv\"><b>");
    html.append(shards);
    html.append("</b> shards (");
    html.append(sealed);
    html.append(" sealed) &middot; <b>");
    html.append(positions);
    html.append("</b> positions &middot; ");
    html.append(pool);
    html.append(" workers &middot; ");
    html.append(slots);
    html.append(" query slots free</p>");
    html
}

pub open spec fn capacity_detail_html(positions: Seq<char>, position_capacity: Seq<char>, shards: Seq<char>, shard_capacity: Seq<char>) -> Seq<char> {
    positions + " of "@ + position_capacity + " positions &middot; "@ + shards + " of "@ + shard_capacity + " shards &middot; append a worker before this fills"@
}

/// How full a table is, in words.
fn capacity_detail(positions: &str, position_capacity: &str, shards: &str, shard_capacity: &str) -> (html: String)
    ensures
        html@ == capacity_detail_html(positions@, position_capacity@, shards@, shard_capacity@),
{
    let mut html = String::from_str(positions);
    html.append(" of ");
    html.append(position_capacity);
    html.append(" positions &middot; ");
    html.append(shards);
    html.append(" of ");
    html.append(shard_capacity);
    html.append(" shards &middot; append a worker before this fills");
    html
}

/// Bit patterns of nine tenths, of eight tenths and of three quarters.
pub const NINE_TENTHS_BITS: u64 = 0x3fec_cccc_cccc_cccd;

pub const EIGHT_TENTHS_BITS: u64 = 0x3fe9_9999_9999_999a;

pub const THREE_QUARTERS_BITS: u64 = 0x3fe8_0000_0000_0000;

/// Whether a gauge is there and not zero or less.
pub open spec fn is_some_positive(bits: Option<u64>) -> bool {
    bits is Some && !reaches(0, bits->0)
}

fn some_positive(bits: Option<u64>) -> (yes: bool)
    ensures
        yes == is_some_positive(bits),
{
    match bits {
        Some(bits) => !at_least(0, bits),
        None => false,
    }
}

/// Whether a table says how much it can hold.
pub open spec fn has_capacity(gauges: Gauges) -> bool {
    &&& is_some_positive(measured(gauges, "pool_workers"@))
    &&& is_some_positive(measured(gauges, "shards_per_worker"@))
    &&& is_some_positive(measured(gauges, "shard_positions"@))
    &&& measured(gauges, "positions"@) is Some
}

/// How full a table is, where it says how much it can hold.
pub open spec fn table_capacity_html(gauges: Gauges, capacity: Option<CapacityFigures>) -> Seq<
    char,
> {
    match capacity {
        Some(figures) => if has_capacity(gauges) {
            meter_html(
                "Capacity"@,
                capacity_detail_html(
                    figures.positions@,
                    figures.position_capacity@,
                    figures.shards_used@,
                    figures.shard_capacity@,
                ),
                figures.whole_percent@,
                figures.percent@,
                if less(NINE_TENTHS_BITS, figures.ratio) {
                    "bad"@
                } else if less(THREE_QUARTERS_BITS, figures.ratio) {
                    "warn"@
                } else {
                    ""@
                },
            )
        } else {
            ""@
        },
        None => ""@,
    }
}

/// How full a table is: published positions against what its pool can hold.
pub fn table_capacity_meter(gauges: &Gauges, capacity: &Option<CapacityFigures>) -> (html: String)
    requires
        gauges.wf(),
    ensures
        html@ == table_capacity_html(*gauges, *capacity),
{
    let figures = match capacity {
        Some(figures) => figures,
        None => {
            return String::from_str("");
        },
    };
    let positions_known: bool = match measure(gauges, "positions") {
        Some(_) => true,
        None => false,
    };
    if !(some_positive(measure(gauges, "pool_workers")) && some_positive(
        measure(gauges, "shards_per_worker"),
    ) && some_positive(measure(gauges, "shard_positions")) && positions_known) {
        return String::from_str("");
    }
    let tone: &str = if less_than(NINE_TENTHS_BITS, figures.ratio) {
        "bad"
    } else if less_than(THREE_QUARTERS_BITS, figures.ratio) {
        "warn"
    } else {
        ""
    };
    let detail = capacity_detail(
        figures.positions.as_str(),
        figures.position_capacity.as_str(),
        figures.shards_used.as_str(),
        figures.shard_capacity.as_str(),
    );
    meter(
        "Capacity",
        detail.as_str(),
        figures.whole_percent.as_str(),
        figures.percent.as_str(),
        tone,
    )
}

/// A table's holders, parted by dots.
pub open spec fn holder_list_html(holders: Seq<Holder>) -> Seq<char>
    decreases holders.len(),
{
    if holders.len() == 0 {
        ""@
    } else {
        let one = escaped(holders.last().worker@) + ": "@ + holders.last().owned@;
        if holders.len() == 1 {
            one
        } else {
            holder_list_html(holders.drop_last()) + " &middot; "@ + one
        }
    }
}

/// A table's holders, where there are any.
pub open spec fn holders_html(holders: Seq<Holder>) -> Seq<char> {
    if holders.len() == 0 {
        ""@
    } else {
        "<p class=\"kv\">"@ + holder_list_html(holders) + "</p>"@
    }
}

fn holder_lines(holders: &Vec<Holder>) -> (html: String)
    ensures
        html@ == holders_html(holders@),
{
    if holders.len() == 0 {
        return String::from_str("");
    }
    let mut list = String::from_str("");
    let mut i: usize = 0;
    while i < holders.len()
        invariant
            i <= holders.len(),
            i == 0 ==> list@ == ""@,
            list@ == holder_list_html(holders@.take(i as int)),
        decreases holders.len() - i,
    {
        assert(holders@.take(i + 1).drop_last() =~= holders@.take(i as int));
        let mut one = escape(holders[i].worker.as_str());
        one.append(": ");
        one.append(holders[i].owned.as_str());
        if i == 0 {
            list = one;
        } else {
            list.append(" &middot; ");
            list.append(one.as_str());
        }
        i = i + 1;
    }
    assert(holders@.take(i as int) =~= holders@);
    let mut html = String::from_str("<p class=\"kv\">");
    html.append(list.as_str());
    html.append("</p>");
    html
}

pub open spec fn served_table_html(name: Seq<char>, layout: Seq<char>, usage: Seq<char>, holders: Seq<char>, capacity: Seq<char>) -> Seq<char> {
    "<div class=\"node is-ok\"><p class=\"role\">Table</p><p class=\"id\">"@ + escaped(name) + "</p>"@ + layout + usage + holders + capacity + "</div>"@
}

/// A table that is served.
fn served_table(name: &str, layout: &str, usage: &str, holders: &str, capacity: &str) -> (html: String)
    ensures
        html@ == served_table_html(name@, layout@, usage@, holders@, capacity@),
{
    let mut html = String::from_str("<div class=\"node is-ok\"><p class=\"role\">Table</p><p class=\"id\">");
    html.append(escape(name).as_str());
    html.append("</p>");
    html.append(layout);
    html.append(usage);
    html.append(holders);
    html.append(capacity);
    html.append("</div>");
    html
}

/// A table's use in words.
pub open spec fn table_usage_html(gauges: Gauges) -> Seq<char> {
    usage_line_html(
        shown_or(gauges, "shards"@, "0"@),
        shown_or(gauges, "sealed_shards"@, "0"@),
        shown_or(gauges, "positions"@, "0"@),
        shown_or(gauges, "pool_workers"@, "0"@),
        shown_or(gauges, "query_slots_available"@, "0"@),
    )
}

/// A table's card: its layout alone where it is not served.
pub open spec fn table_card_html(table: TableView) -> Seq<char> {
    if is_set(measured(table.gauges, "registered"@)) {
        served_table_html(
            table.name@,
            table_layout_html(table.gauges),
            table_usage_html(table.gauges),
            holders_html(table.holders@),
            table_capacity_html(table.gauges, table.capacity),
        )
    } else {
        planned_table_html(table.name@, table_layout_html(table.gauges))
    }
}

fn table_card(table: &TableView) -> (html: String)
    requires
        table.gauges.wf(),
    ensures
        html@ == table_card_html(*table),
{
    let gauges = &table.gauges;
    let layout = table_layout(gauges);
    if !set_gauge(measure(gauges, "registered")) {
        return planned_table(table.name.as_str(), layout.as_str());
    }
    let usage = usage_line(
        show_or(gauges, "shards", "0").as_str(),
        show_or(gauges, "sealed_shards", "0").as_str(),
        show_or(gauges, "positions", "0").as_str(),
        show_or(gauges, "pool_workers", "0").as_str(),
        show_or(gauges, "query_slots_available", "0").as_str(),
    );
    served_table(
        table.name.as_str(),
        layout.as_str(),
        usage.as_str(),
        holder_lines(&table.holders).as_str(),
        table_capacity_meter(gauges, &table.capacity).as_str(),
    )
}

/// One card per table.
pub open spec fn table_cards_html(items: Seq<TableView>) -> Seq<char>
    decreases items.len(),
{
    if items.len() == 0 {
        ""@
    } else {
        table_cards_html(items.drop_last()) + table_card_html(items.last())
    }
}

fn table_cards(items: &Vec<TableView>) -> (html: String)
    requires
        tables_wf(items@),
    ensures
        html@ == table_cards_html(items@),
{
    let mut html = String::from_str("");
    let mut i: usize = 0;
    assert(items@.take(0).len() == 0);
    while i < items.len()
        invariant
            i <= items.len(),
            tables_wf(items@),
            html@ == table_cards_html(items@.take(i as int)),
        decreases items.len() - i,
    {
        assert(items@.take(i + 1).drop_last() =~= items@.take(i as int));
        html.append(table_card(&items[i]).as_str());
        i = i + 1;
    }
    assert(items@.take(i as int) =~= items@);
    html
}

/// The tables, where there are any.
pub open spec fn tables_section_html(tables: Seq<TableView>) -> Seq<char> {
    if tables.len() == 0 {
        ""@
    } else {
        "<p class=\"section\">Tables</p><div class=\"tables\">"@ + table_cards_html(tables) + "</div>"@
    }
}

/// One card per table that the coordinator knows of; a table that is only
/// planned is drawn dimmed, with its layout alone.
pub fn tables_section(tables: &Vec<TableView>) -> (html: String)
    requires
        tables_wf(tables@),
    ensures
        html@ == tables_section_html(tables@),
{
    if tables.len() == 0 {
        return String::from_str("");
    }
    let mut html = String::from_str("<p class=\"section\">Tables</p><div class=\"tables\">");
    html.append(table_cards(tables).as_str());
    html.append("</div>");
    html
}

pub open spec fn explained_table_html(name: Seq<char>, per_row: Seq<char>, bytes: Seq<char>, rows: Seq<char>, positions: Seq<char>, state: Seq<char>) -> Seq<char> {
    "<tr><th>"@ + escaped(name) + "</th><td>"@ + per_row + " &times; "@ + bytes + " B</td><td>"@ + rows + "</td><td>"@ + positions + "</td><td class=\"muted\">"@ + state + "</td></tr>"@
}

/// A table in the explanation.
fn explained_table(name: &str, per_row: &str, bytes: &str, rows: &str, positions: &str, state: &str) -> (html: String)
    ensures
        html@ == explained_table_html(name@, per_row@, bytes@, rows@, positions@, state@),
{
    let mut html = String::from_str("<tr><th>");
    html.append(escape(name).as_str());
    html.append("</th><td>");
    html.append(per_row);
    html.append(" &times; ");
    html.append(bytes);
    html.append(" B</td><td>");
    html.append(rows);
    html.append("</td><td>");
    html.append(positions);
    html.append("</td><td class=\"muted\">");
    html.append(state);
    html.append("</td></tr>");
    html
}

/// A table in the explanation.
pub open spec fn explained_row_html(table: TableView) -> Seq<char> {
    explained_table_html(
        table.name@,
        shown_or(table.gauges, "records_per_row"@, "?"@),
        shown_or(table.gauges, "record_bytes"@, "?"@),
        shown_or(table.gauges, "shard_rows"@, "?"@),
        shown_or(table.gauges, "shard_positions"@, "?"@),
        if is_set(measured(table.gauges, "registered"@)) {
            "serving"@
        } else {
            "planned"@
        },
    )
}

fn explained_row(table: &TableView) -> (html: String)
    requires
        table.gauges.wf(),
    ensures
        html@ == explained_row_html(*table),
{
    let gauges = &table.gauges;
    let state: &str = if set_gauge(measure(gauges, "registered")) {
        "serving"
    } else {
        "planned"
    };
    explained_table(
        table.name.as_str(),
        show_or(gauges, "records_per_row", "?").as_str(),
        show_or(gauges, "record_bytes", "?").as_str(),
        show_or(gauges, "shard_rows", "?").as_str(),
        show_or(gauges, "shard_positions", "?").as_str(),
        state,
    )
}

/// Tables in the explanation.
pub open spec fn explained_rows_html(items: Seq<TableView>) -> Seq<char>
    decreases items.len(),
{
    if items.len() == 0 {
        ""@
    } else {
        explained_rows_html(items.drop_last()) + explained_row_html(items.last())
    }
}

fn explained_rows(items: &Vec<TableView>) -> (html: String)
    requires
        tables_wf(items@),
    ensures
        html@ == explained_rows_html(items@),
{
    let mut html = String::from_str("");
    let mut i: usize = 0;
    assert(items@.take(0).len() == 0);
    while i < items.len()
        invariant
            i <= items.len(),
            tables_wf(items@),
            html@ == explained_rows_html(items@.take(i as int)),
        decreases items.len() - i,
    {
        assert(items@.take(i + 1).drop_last() =~= items@.take(i as int));
        html.append(explained_row(&items[i]).as_str());
        i = i + 1;
    }
    assert(items@.take(i as int) =~= items@);
    html
}

/// The first table, from a place on, that says how many shards a worker owns.
pub open spec fn per_worker_from(tables: Seq<TableView>, from: int) -> Option<Reading>
    decreases tables.len() - from,
{
    if from < 0 || from >= tables.len() {
        None
    } else if tables[from].gauges.values().contains_key("shards_per_worker"@) {
        Some(tables[from].gauges.values()["shards_per_worker"@])
    } else {
        per_worker_from(tables, from + 1)
    }
}

fn find_per_worker<'a>(tables: &'a Vec<TableView>) -> (reading: Option<&'a Reading>)
    requires
        tables_wf(tables@),
    ensures
        match reading {
            Some(reading) => per_worker_from(tables@, 0) == Some(*reading),
            None => per_worker_from(tables@, 0) is None,
        },
{
    let mut i: usize = 0;
    while i < tables.len()
        invariant
            i <= tables.len(),
            tables_wf(tables@),
            per_worker_from(tables@, 0) == per_worker_from(tables@, i as int),
        decreases tables.len() - i,
    {
        assert(tables@[i as int].gauges.wf());
        if let Some(reading) = tables[i].gauges.get("shards_per_worker") {
            return Some(reading);
        }
        i = i + 1;
    }
    None
}

pub open spec fn owned_range_html(per_worker: Seq<char>, last: Seq<char>) -> Seq<char> {
    "Worker <b>n</b> of a table's pool owns shards <b>n&times;"@ + per_worker + "</b> to <b>n&times;"@ + per_worker + "+"@ + last + "</b>; pools are append-only, so adding a worker never moves a shard."@
}

/// Which shards a worker owns.
fn owned_range(per_worker: &str, last: &str) -> (html: String)
    ensures
        html@ == owned_range_html(per_worker@, last@),
{
    let mut html = String::from_str("Worker <b>n</b> of a table's pool owns shards <b>n&times;");
    html.append(per_worker);
    html.append("</b> to <b>n&times;");
    html.append(per_worker);
    html.append("+");
    html.append(last);
    html.append("</b>; pools are append-only, so adding a worker never moves a shard.");
    html
}

/// Which shards a worker owns, in words.
pub open spec fn ownership_html(tables: Seq<TableView>, last: Seq<char>) -> Seq<char> {
    match per_worker_from(tables, 0) {
        Some(reading) => if reaches(reading.bits, ONE_BITS) {
            owned_range_html(reading.text@, last)
        } else {
            "Each worker owns a fixed range of shard ids; pools are append-only."@
        },
        None => "Each worker owns a fixed range of shard ids; pools are append-only."@,
    }
}

fn ownership(tables: &Vec<TableView>, last: &str) -> (html: String)
    requires
        tables_wf(tables@),
    ensures
        html@ == ownership_html(tables@, last@),
{
    if let Some(reading) = find_per_worker(tables) {
        if at_least(reading.bits, ONE_BITS) {
            return owned_range(reading.text.as_str(), last);
        }
    }
    String::from_str("Each worker owns a fixed range of shard ids; pools are append-only.")
}

/// How the fleet works, where it exports tables.
pub open spec fn explainer_card_html(layout: Gauges, tables: Seq<TableView>, last: Seq<char>) -> Seq<
    char,
> {
    if tables.len() == 0 {
        ""@
    } else {
        "<section class=\"card\"><p class=\"eyebrow\">How this fleet works</p><dl class=\"explain\"><dt>Ingest</dt><dd>The coordinator alone reads the chain. It polls the local archive node, waits <b>"@ + shown_or(layout, "confirmations"@, "?"@) + "</b> confirmations, and appends each finalized block to one append-only journal per table, starting at Ironwood activation, height <b>"@ + shown_or(
            layout,
            "activation_height"@,
            "?"@,
        ) + "</b>. Workers never touch the chain.</dd><dt>Generations</dt><dd>Every finalized block publishes a new generation, named by its height, whose manifest describes every table at that one anchor. A wallet pins one generation for a whole sync pass. The eight newest generations stay answerable, so a query built just before a publish still succeeds. Only shards whose rows changed are rebuilt; sealed shards are reused from the worker's cache.</dd><dt>Layout</dt><dd>Every table is indexed directly by position. "@ + ownership_html(tables, last) + "<div class=\"wrap\"><table><thead><tr><th>Table</th><th>Row</th><th>Rows / shard</th><th>Positions / shard</th><th></th></tr></thead><tbody>"@ + explained_rows_html(
            tables,
        ) + "</tbody></table></div></dd><dt>Queries</dt><dd>A client fetches a table's public parameters and sends one query for the whole table to <code>/v1/&lt;table&gt;/query</code>. The coordinator slices it per shard, fans the slices out to that table's workers in parallel, sums the partial answers, and packs a single response. Admission is per table; excess queries are shed with a 503.</dd></dl></section>"@
    }
}

/// How the fleet works. Every number comes from a gauge, so the words cannot
/// drift from the server. `last` is the last shard of the first worker.
pub fn explainer_card(layout: &Gauges, tables: &Vec<TableView>, last: &str) -> (html: String)
    requires
        layout.wf(),
        tables_wf(tables@),
    ensures
        html@ == explainer_card_html(*layout, tables@, last@),
{
    if tables.len() == 0 {
        return String::from_str("");
    }
    let mut html = String::from_str("<section class=\"card\"><p class=\"eyebrow\">How this fleet works</p><dl class=\"explain\"><dt>Ingest</dt><dd>The coordinator alone reads the chain. It polls the local archive node, waits <b>");
    html.append(show_or(layout, "confirmations", "?").as_str());
    html.append("</b> confirmations, and appends each finalized block to one append-only journal per table, starting at Ironwood activation, height <b>");
    html.append(show_or(layout, "activation_height", "?").as_str());
    html.append("</b>. Workers never touch the chain.</dd><dt>Generations</dt><dd>Every finalized block publishes a new generation, named by its height, whose manifest describes every table at that one anchor. A wallet pins one generation for a whole sync pass. The eight newest generations stay answerable, so a query built just before a publish still succeeds. Only shards whose rows changed are rebuilt; sealed shards are reused from the worker's cache.</dd><dt>Layout</dt><dd>Every table is indexed directly by position. ");
    html.append(ownership(tables, last).as_str());
    html.append("<div class=\"wrap\"><table><thead><tr><th>Table</th><th>Row</th><th>Rows / shard</th><th>Positions / shard</th><th></th></tr></thead><tbody>");
    html.append(explained_rows(tables).as_str());
    html.append("</tbody></table></div></dd><dt>Queries</dt><dd>A client fetches a table's public parameters and sends one query for the whole table to <code>/v1/&lt;table&gt;/query</code>. The coordinator slices it per shard, fans the slices out to that table's workers in parallel, sums the partial answers, and packs a single response. Admission is per table; excess queries are shed with a 503.</dd></dl></section>");
    html
}

pub open spec fn gauge_row_html(name: Seq<char>, label: Seq<char>, value: Seq<char>) -> Seq<char> {
    "<li><span class=\"k\" title=\""@ + escaped(name) + "\">"@ + escaped(label) + "</span><span class=\"v\">"@ + value + "</span></li>"@
}

/// A gauge, with its raw name as a tooltip.
fn gauge_row(name: &str, label: &str, value: &str) -> (html: String)
    ensures
        html@ == gauge_row_html(name@, label@, value@),
{
    let mut html = String::from_str("<li><span class=\"k\" title=\"");
    html.append(escape(name).as_str());
    html.append("\">");
    html.append(escape(label).as_str());
    html.append("</span><span class=\"v\">");
    html.append(value);
    html.append("</span></li>");
    html
}

/// The first `n` gauges of the snapshot.
pub open spec fn gauge_rows_html(schema: Schema, entries: Seq<(String, Reading)>, n: int) -> Seq<char>
    decreases n,
{
    if n <= 0 {
        ""@
    } else {
        gauge_rows_html(schema, entries, n - 1) + gauge_row_html(
            entries[n - 1].0@,
            gauge_label(entries[n - 1].0@, schema.gauge_prefix@),
            entries[n - 1].1.text@,
        )
    }
}

fn gauge_rows(schema: &Schema, gauges: &Gauges) -> (html: String)
    ensures
        html@ == gauge_rows_html(*schema, gauges.listed(), gauges.listed().len() as int),
{
    let mut html = String::from_str("");
    let mut i: usize = 0;
    while i < gauges.len()
        invariant
            i <= gauges.listed().len(),
            html@ == gauge_rows_html(*schema, gauges.listed(), i as int),
        decreases gauges.listed().len() - i,
    {
        let name = gauges.name_at(i);
        let label = humanize_gauge(name, schema.gauge_prefix.as_str());
        html.append(gauge_row(name, label.as_str(), gauges.value_at(i).text.as_str()).as_str());
        i = i + 1;
    }
    html
}

/// Gauges of the snapshot, memory of the server, and what its health says.
pub open spec fn service_card_html(
    schema: Schema,
    gauges: Gauges,
    resident: Option<u64>,
    health: Option<Seq<char>>,
) -> Seq<char> {
    "<section class=\"card\"><p class=\"eyebrow\">Service &amp; snapshot</p><ul class=\"rows\">"@ + (
    if gauges.listed().len() == 0 {
        "<li><span class=\"k\">Snapshot metrics</span><span class=\"v muted\">none yet</span></li>"@
    } else {
        gauge_rows_html(schema, gauges.listed(), gauges.listed().len() as int)
    }) + "<li><span class=\"k\">Resident memory</span><span class=\"v\">"@ + (match resident {
        Some(bytes) => size_text(bytes),
        None => "unavailable"@,
    }) + "</span></li></ul><p class=\"note\"><strong>/health</strong> <code>"@ + (match health {
        Some(body) => escaped(body),
        None => "unavailable"@,
    }) + "</code></p></section>"@
}

/// Gauges of the snapshot, memory of the server, and what its health says.
pub fn service_card(
    schema: &Schema,
    gauges: &Gauges,
    resident: Option<u64>,
    health: &Option<String>,
) -> (html: String)
    ensures
        html@ == service_card_html(*schema, *gauges, resident, text_view(*health)),
{
    let mut html = String::from_str(
        "<section class=\"card\"><p class=\"eyebrow\">Service &amp; snapshot</p><ul class=\"rows\">",
    );
    if gauges.len() == 0 {
        html.append(
            "<li><span class=\"k\">Snapshot metrics</span><span class=\"v muted\">none yet</span></li>",
        );
    } else {
        html.append(gauge_rows(schema, gauges).as_str());
    }
    html.append("<li><span class=\"k\">Resident memory</span><span class=\"v\">");
    match resident {
        Some(bytes) => {
            html.append(bytes_human(bytes).as_str());
        },
        None => {
            html.append("unavailable");
        },
    }
    html.append("</span></li></ul><p class=\"note\"><strong>/health</strong> <code>");
    match health {
        Some(body) => {
            html.append(escape(body.as_str()).as_str());
        },
        None => {
            html.append("unavailable");
        },
    }
    html.append("</code></p></section>");
    html
}

/// How full something is, in percent: whole, and with one decimal.
#[derive(Debug)]
pub struct Percent {
    pub whole: String,
    pub tenth: String,
}

/// State of the sidecar's host. Shares and loads come as they are shown.
#[derive(Debug)]
pub struct HostView {
    pub load_one: String,
    pub load_five: String,
    pub load_fifteen: String,
    pub total_memory_bytes: u64,
    pub available_memory_bytes: u64,
    pub memory_used: Percent,
    pub disk_total_bytes: u64,
    pub disk_available_bytes: u64,
    pub disk_used_ratio: u64,
    pub disk_used: Percent,
    pub data_dir: String,
}

/// What is free of something.
pub open spec fn free_of_html(available: u64, total: u64) -> Seq<char> {
    size_text(available) + " free of "@ + size_text(total)
}

fn free_of(available: u64, total: u64) -> (html: String)
    ensures
        html@ == free_of_html(available, total),
{
    let mut html = bytes_human(available);
    html.append(" free of ");
    html.append(bytes_human(total).as_str());
    html
}

/// The sidecar's host.
pub open spec fn host_card_html(host: HostView) -> Seq<char> {
    "<section class=\"card\"><p class=\"eyebrow\">Host</p>"@ + meter_html(
        "Enhancery"@,
        free_of_html(host.available_memory_bytes, host.total_memory_bytes),
        host.memory_used.whole@,
        host.memory_used.tenth@,
        memory_tone(host.available_memory_bytes),
    ) + meter_html(
        "Disk"@,
        free_of_html(host.disk_available_bytes, host.disk_total_bytes),
        host.disk_used.whole@,
        host.disk_used.tenth@,
        if less(NINE_TENTHS_BITS, host.disk_used_ratio) {
            "bad"@
        } else if less(EIGHT_TENTHS_BITS, host.disk_used_ratio) {
            "warn"@
        } else {
            ""@
        },
    ) + "<ul class=\"rows\"><li><span class=\"k\">Load 1 / 5 / 15</span><span class=\"v\">"@
        + host.load_one@ + " · "@ + host.load_five@ + " · "@ + host.load_fifteen@
        + "</span></li><li><span class=\"k\">Data directory</span><span class=\"v wrap-any\">"@
        + escaped(host.data_dir@) + "</span></li></ul></section>"@
}

/// The sidecar's host.
pub fn host_card(host: &HostView) -> (html: String)
    ensures
        html@ == host_card_html(*host),
{
    let mut html = String::from_str("<section class=\"card\"><p class=\"eyebrow\">Host</p>");
    let memory = free_of(host.available_memory_bytes, host.total_memory_bytes);
    html.append(
        meter(
            "Enhancery",
            memory.as_str(),
            host.memory_used.whole.as_str(),
            host.memory_used.tenth.as_str(),
            memory_grade(host.available_memory_bytes),
        ).as_str(),
    );
    let disk_tone: &str = if less_than(NINE_TENTHS_BITS, host.disk_used_ratio) {
        "bad"
    } else if less_than(EIGHT_TENTHS_BITS, host.disk_used_ratio) {
        "warn"
    } else {
        ""
    };
    let disk = free_of(host.disk_available_bytes, host.disk_total_bytes);
    html.append(
        meter(
            "Disk",
            disk.as_str(),
            host.disk_used.whole.as_str(),
            host.disk_used.tenth.as_str(),
            disk_tone,
        ).as_str(),
    );
    html.append(
        "<ul class=\"rows\"><li><span class=\"k\">Load 1 / 5 / 15</span><span class=\"v\">",
    );
    html.append(host.load_one.as_str());
    html.append(" · ");
    html.append(host.load_five.as_str());
    html.append(" · ");
    html.append(host.load_fifteen.as_str());
    html.append(
        "</span></li><li><span class=\"k\">Data directory</span><span class=\"v wrap-any\">",
    );
    html.append(escape(host.data_dir.as_str()).as_str());
    html.append("</span></li></ul></section>");
    html
}

/// An alert that is firing.
#[derive(Debug)]
pub struct Alert {
    pub check: String,
    pub observed: String,
    pub threshold: String,
    /// Whole seconds since it fired; nothing where that is not in the past.
    pub fired_seconds: Option<u64>,
}

/// An alert that is firing.
pub open spec fn alert_html(alert: Alert) -> Seq<char> {
    "<li class=\"is-bad\"><p class=\"name\">"@ + escaped(alert.check@)
        + "</p><p class=\"detail\">"@ + escaped(alert.observed@)
        + " <span class=\"muted\">(threshold "@ + escaped(alert.threshold@)
        + ")</span></p><p class=\"when\">firing "@ + age_text(alert.fired_seconds) + "</p></li>"@
}

fn alert_item(alert: &Alert) -> (html: String)
    ensures
        html@ == alert_html(*alert),
{
    let mut html = String::from_str("<li class=\"is-bad\"><p class=\"name\">");
    html.append(escape(alert.check.as_str()).as_str());
    html.append("</p><p class=\"detail\">");
    html.append(escape(alert.observed.as_str()).as_str());
    html.append(" <span class=\"muted\">(threshold ");
    html.append(escape(alert.threshold.as_str()).as_str());
    html.append(")</span></p><p class=\"when\">firing ");
    html.append(relative_time(alert.fired_seconds).as_str());
    html.append("</p></li>");
    html
}

/// Alerts that are firing.
pub open spec fn alert_items_html(items: Seq<Alert>) -> Seq<char>
    decreases items.len(),
{
    if items.len() == 0 {
        ""@
    } else {
        alert_items_html(items.drop_last()) + alert_html(items.last())
    }
}

fn alert_items(items: &Vec<Alert>) -> (html: String)
    ensures
        html@ == alert_items_html(items@),
{
    let mut html = String::from_str("");
    let mut i: usize = 0;
    assert(items@.take(0).len() == 0);
    while i < items.len()
        invariant
            i <= items.len(),
            html@ == alert_items_html(items@.take(i as int)),
        decreases items.len() - i,
    {
        assert(items@.take(i + 1).drop_last() =~= items@.take(i as int));
        html.append(alert_item(&items[i]).as_str());
        i = i + 1;
    }
    assert(items@.take(i as int) =~= items@);
    html
}

/// What is firing, or that nothing is.
pub open spec fn active_alerts_html(alerts: Seq<Alert>) -> Seq<char> {
    if alerts.len() == 0 {
        "<section class=\"card\"><p class=\"eyebrow\">Active alerts</p><ul class=\"alerts\"><li class=\"is-ok\"><p class=\"name\">All checks passing</p><p class=\"detail\">No thresholds are currently breached.</p></li></ul></section>"@
    } else {
        "<section class=\"card\"><p class=\"eyebrow\">Active alerts</p><ul class=\"alerts\">"@
            + alert_items_html(alerts) + "</ul></section>"@
    }
}

/// What is firing, or that nothing is.
pub fn active_alerts_card(alerts: &Vec<Alert>) -> (html: String)
    ensures
        html@ == active_alerts_html(alerts@),
{
    if alerts.len() == 0 {
        return String::from_str("<section class=\"card\"><p class=\"eyebrow\">Active alerts</p><ul class=\"alerts\"><li class=\"is-ok\"><p class=\"name\">All checks passing</p><p class=\"detail\">No thresholds are currently breached.</p></li></ul></section>");
    }
    let mut html = String::from_str(
        "<section class=\"card\"><p class=\"eyebrow\">Active alerts</p><ul class=\"alerts\">",
    );
    html.append(alert_items(alerts).as_str());
    html.append("</ul></section>");
    html
}

/// A message of the alert history.
#[derive(Debug)]
pub struct RecentAlert {
    pub message: String,
    /// Whole seconds since; nothing where that is not in the past.
    pub seconds: Option<u64>,
}

/// A message of the alert history.
pub open spec fn recent_html(recent: RecentAlert) -> Seq<char> {
    "<li><span class=\"k\">"@ + escaped(recent.message@) + "</span><span class=\"v\">"@ + age_text(
        recent.seconds,
    ) + "</span></li>"@
}

fn recent_item(recent: &RecentAlert) -> (html: String)
    ensures
        html@ == recent_html(*recent),
{
    let mut html = String::from_str("<li><span class=\"k\">");
    html.append(escape(recent.message.as_str()).as_str());
    html.append("</span><span class=\"v\">");
    html.append(relative_time(recent.seconds).as_str());
    html.append("</span></li>");
    html
}

/// The alert history.
pub open spec fn recent_items_html(items: Seq<RecentAlert>) -> Seq<char>
    decreases items.len(),
{
    if items.len() == 0 {
        ""@
    } else {
        recent_items_html(items.drop_last()) + recent_html(items.last())
    }
}

fn recent_items(items: &Vec<RecentAlert>) -> (html: String)
    ensures
        html@ == recent_items_html(items@),
{
    let mut html = String::from_str("");
    let mut i: usize = 0;
    assert(items@.take(0).len() == 0);
    while i < items.len()
        invariant
            i <= items.len(),
            html@ == recent_items_html(items@.take(i as int)),
        decreases items.len() - i,
    {
        assert(items@.take(i + 1).drop_last() =~= items@.take(i as int));
        html.append(recent_item(&items[i]).as_str());
        i = i + 1;
    }
    assert(items@.take(i as int) =~= items@);
    html
}

/// The alert history, or that there is none.
pub open spec fn recent_alerts_html(recent: Seq<RecentAlert>) -> Seq<char> {
    if recent.len() == 0 {
        "<section class=\"card\"><p class=\"eyebrow\">Alert history</p><p class=\"empty\">Nothing recorded since this sidecar started.</p></section>"@
    } else {
        "<section class=\"card\"><p class=\"eyebrow\">Alert history</p><ul class=\"rows\">"@
            + recent_items_html(recent) + "</ul></section>"@
    }
}

/// The alert history, or that there is none.
pub fn recent_alerts_card(recent: &Vec<RecentAlert>) -> (html: String)
    ensures
        html@ == recent_alerts_html(recent@),
{
    if recent.len() == 0 {
        return String::from_str("<section class=\"card\"><p class=\"eyebrow\">Alert history</p><p class=\"empty\">Nothing recorded since this sidecar started.</p></section>");
    }
    let mut html = String::from_str(
        "<section class=\"card\"><p class=\"eyebrow\">Alert history</p><ul class=\"rows\">",
    );
    html.append(recent_items(recent).as_str());
    html.append("</ul></section>");
    html
}

/// Whether the rows begin with one for each endpoint of the schema, in its
/// order.
pub open spec fn rows_cover(schema: Schema, rows: Seq<EndpointRow>) -> bool {
    &&& schema.endpoints@.len() <= rows.len()
    &&& forall|i: int|
        0 <= i < schema.endpoints@.len() ==> (#[trigger] rows[i]).name@ == schema.endpoints@[i]@
}

/// Everything that the page shows.
#[derive(Debug)]
pub struct DashboardData {
    pub title: String,
    pub environment: String,
    pub hostname: String,
    pub schema: Schema,
    pub last_scrape: Option<ScrapeTime>,
    pub scrape_error: Option<String>,
    pub health_status: Option<u16>,
    pub health_body: Option<String>,
    pub ready_status: Option<u16>,
    pub rows: Vec<EndpointRow>,
    pub totals: Totals,
    pub snapshot_gauges: Gauges,
    pub layout: Gauges,
    pub workers: Vec<WorkerView>,
    pub tables: Vec<TableView>,
    /// The last shard that the first worker of a pool owns.
    pub last_shard: String,
    pub resident_memory_bytes: Option<u64>,
    pub host: HostView,
    pub active_alerts: Vec<Alert>,
    pub recent_alerts: Vec<RecentAlert>,
}

impl DashboardData {
    /// Every endpoint of the schema has a row, whether or not the server has
    /// reported on it, in the order of the schema. Workers, tables, shares and
    /// holders stand in the order in which they are shown.
    pub open spec fn wf(&self) -> bool {
        &&& self.schema.wf()
        &&& rows_cover(self.schema, self.rows@)
        &&& self.snapshot_gauges.wf()
        &&& self.layout.wf()
        &&& tables_wf(self.tables@)
        &&& in_order(self.workers@)
        &&& in_order(self.tables@)
        &&& forall|i: int|
            0 <= i < self.workers@.len() ==> in_order((#[trigger] self.workers@[i]).shares@)
        &&& forall|i: int|
            0 <= i < self.tables@.len() ==> in_order((#[trigger] self.tables@[i]).holders@)
    }

    /// A page before the first scrape. `rows` shows what is known of each
    /// endpoint then.
    pub fn new(
        title: String,
        schema: Schema,
        environment: String,
        hostname: String,
        host: HostView,
        rows: Vec<EndpointRow>,
        totals: Totals,
    ) -> (data: DashboardData)
        requires
            schema.wf(),
            rows_cover(schema, rows@),
        ensures
            data.wf(),
            data.title == title,
            data.schema == schema,
            data.environment == environment,
            data.hostname == hostname,
            data.host == host,
            data.rows == rows,
            data.totals == totals,
            data.last_scrape is None,
            text_view(data.scrape_error) == Some("waiting for first scrape"@),
            data.health_status is None,
            data.health_body is None,
            data.ready_status is None,
            data.snapshot_gauges.values() == Map::<Seq<char>, Reading>::empty(),
            data.layout.values() == Map::<Seq<char>, Reading>::empty(),
            data.workers@.len() == 0,
            data.tables@.len() == 0,
            data.last_shard@ == ""@,
            data.resident_memory_bytes is None,
            data.active_alerts@.len() == 0,
            data.recent_alerts@.len() == 0,
    {
        DashboardData {
            title,
            environment,
            hostname,
            schema,
            last_scrape: None,
            scrape_error: Some(String::from_str("waiting for first scrape")),
            health_status: None,
            health_body: None,
            ready_status: None,
            rows,
            totals,
            snapshot_gauges: Gauges::new(),
            layout: Gauges::new(),
            workers: Vec::new(),
            tables: Vec::new(),
            last_shard: String::from_str(""),
            resident_memory_bytes: None,
            host,
            active_alerts: Vec::new(),
            recent_alerts: Vec::new(),
        }
    }

    /// The cards of the page, one below the other.
    pub open spec fn cards(&self) -> Seq<char> {
        masthead_html(self.title@, self.environment@, self.hostname@) + statusbar_html(
            text_view(self.scrape_error),
            self.last_scrape,
            self.health_status,
            self.ready_status,
        ) + kpis_html(self.schema, self.rows@, self.totals, self.active_alerts@.len())
            + endpoint_table_html(self.schema, self.rows@) + processing_latency_splits_html(
            self.schema,
            self.rows@,
        ) + fleet_card_html(
            self.schema,
            self.hostname@,
            self.snapshot_gauges,
            self.workers@,
            self.tables@,
        ) + explainer_card_html(self.layout, self.tables@, self.last_shard@)
    }

    /// The cards of the page, side by side.
    pub open spec fn grid(&self) -> Seq<char> {
        service_card_html(
            self.schema,
            self.snapshot_gauges,
            self.resident_memory_bytes,
            text_view(self.health_body),
        ) + host_card_html(self.host) + active_alerts_html(self.active_alerts@)
            + recent_alerts_html(self.recent_alerts@)
    }

    fn cards_text(&self) -> (html: String)
        requires
            self.wf(),
        ensures
            html@ == self.cards(),
    {
        let mut html = masthead(
            self.title.as_str(),
            self.environment.as_str(),
            self.hostname.as_str(),
        );
        html.append(
            statusbar(
                &self.scrape_error,
                self.last_scrape,
                self.health_status,
                self.ready_status,
            ).as_str(),
        );
        html.append(
            kpis(&self.schema, &self.rows, &self.totals, self.active_alerts.len()).as_str(),
        );
        html.append(endpoint_table(&self.schema, &self.rows).as_str());
        html.append(processing_latency_splits(&self.schema, &self.rows).as_str());
        html.append(
            fleet_card(
                &self.schema,
                self.hostname.as_str(),
                &self.snapshot_gauges,
                &self.workers,
                &self.tables,
            ).as_str(),
        );
        html.append(explainer_card(&self.layout, &self.tables, self.last_shard.as_str()).as_str());
        html
    }

    fn grid_text(&self) -> (html: String)
        ensures
            html@ == self.grid(),
    {
        let mut html = service_card(
            &self.schema,
            &self.snapshot_gauges,
            self.resident_memory_bytes,
            &self.health_body,
        );
        html.append(host_card(&self.host).as_str());
        html.append(active_alerts_card(&self.active_alerts).as_str());
        html.append(recent_alerts_card(&self.recent_alerts).as_str());
        html
    }
}

/// How the page begins.
pub const PAGE_HEAD: &'static str = "<!doctype html>\n<html lang=\"en\"><head><meta charset=\"utf-8\"><meta name=\"viewport\" content=\"width=device-width,initial-scale=1\"><title>";

/// The page.
pub open spec fn page_html(data: DashboardData) -> Seq<char> {
    PAGE_HEAD@ + escaped(data.title@)
        + "</title><noscript><meta http-equiv=\"refresh\" content=\""@ + decimal(
        REFRESH_SECONDS as nat,
    ) + "\"></noscript><style>"@ + STYLE@ + "</style></head><body><main id=\"app\">"@ + data.cards()
        + "<div class=\"grid\">"@ + data.grid() + "</div>"@ + privacy_note_html()
        + "</main><script>"@ + SCRIPT@ + "</script></body></html>"@
}

/// The data.
pub fn render(data: &DashboardData) -> (html: String)
    requires
        data.wf(),
    ensures
        html@ == page_html(*data),
{
    let mut html = String::from_str(PAGE_HEAD);
    html.append(escape(data.title.as_str()).as_str());
    html.append("</title><noscript><meta http-equiv=\"refresh\" content=\"");
    html.append(decimal_text(REFRESH_SECONDS).as_str());
    html.append("\"></noscript><style>");
    html.append(STYLE);
    html.append("</style></head><body><main id=\"app\">");
    html.append(data.cards_text().as_str());
    html.append("<div class=\"grid\">");
    html.append(data.grid_text().as_str());
    html.append("</div>");
    html.append(privacy_note().as_str());
    html.append("</main><script>");
    html.append(SCRIPT);
    html.append("</script></body></html>");
    html
}

proof fn lemma_occurs_before(part: Seq<char>, text: Seq<char>, right: Seq<char>)
    requires
        occurs_in(part, text),
    ensures
        occurs_in(part, text + right),
{
    let at = choose|at: int|
        0 <= at <= text.len() - part.len() && #[trigger] text.subrange(at, at + part.len()) == part;
    assert((text + right).subrange(at, at + part.len()) =~= part);
}

proof fn lemma_occurs_after(part: Seq<char>, left: Seq<char>, text: Seq<char>)
    requires
        occurs_in(part, text),
    ensures
        occurs_in(part, left + text),
{
    let at = choose|at: int|
        0 <= at <= text.len() - part.len() && #[trigger] text.subrange(at, at + part.len()) == part;
    let there = left.len() + at;
    assert((left + text).subrange(there, there + part.len()) =~= part);
}

proof fn lemma_row_in_rows(schema: Schema, rows: Seq<EndpointRow>, i: int)
    requires
        0 <= i < rows.len(),
    ensures
        occurs_in("<th>"@ + escaped(rows[i].name@) + "</th>"@, endpoint_rows_html(schema, rows)),
    decreases rows.len(),
{
    let part = "<th>"@ + escaped(rows[i].name@) + "</th>"@;
    let head = endpoint_rows_html(schema, rows.drop_last());
    let last = endpoint_row_html(schema, rows.last());
    if i < rows.len() - 1 {
        lemma_row_in_rows(schema, rows.drop_last(), i);
        lemma_occurs_before(part, head, last);
    } else {
        let row = rows.last();
        reveal_strlit("<tr><th>");
        reveal_strlit("<tr>");
        reveal_strlit("<th>");
        reveal_strlit("</th><td>");
        reveal_strlit("</th>");
        reveal_strlit("<td>");
        assert("<tr><th>"@ =~= "<tr>"@ + "<th>"@);
        assert("</th><td>"@ =~= "</th>"@ + "<td>"@);
        let rest = "<td>"@ + row.qps@ + "</td><td>"@ + row.in_flight@ + "</td><td>"@ + row.requests@
            + "</td>"@ + latency_cells_html(row.observed, observed_row_budget(schema, row))
            + "<td>"@ + error_cell_html(row.failures) + "</td></tr>"@;
        assert(last =~= "<tr>"@ + part + rest);
        assert(last.subrange(4, 4 + part.len() as int) =~= part);
        lemma_occurs_after(part, head, last);
    }
}

proof fn lemma_row_in_cards(data: DashboardData, i: int)
    requires
        0 <= i < data.rows@.len(),
    ensures
        occurs_in("<th>"@ + escaped(data.rows@[i].name@) + "</th>"@, data.cards()),
{
    let part = "<th>"@ + escaped(data.rows@[i].name@) + "</th>"@;
    lemma_row_in_rows(data.schema, data.rows@, i);
    let rows = endpoint_rows_html(data.schema, data.rows@);
    let opening = "<section class=\"card\"><p class=\"eyebrow\">Observed PIR request latency &middot; 5 minute window</p><div class=\"wrap\"><table><thead><tr><th>Endpoint</th><th>QPS</th><th>Inflight</th><th>Requests</th><th>p50</th><th>p95</th><th>p99</th><th>5xx</th></tr></thead><tbody>"@;
    lemma_occurs_after(part, opening, rows);
    lemma_occurs_before(part, opening + rows, "</tbody></table></div></section>"@);
    let table = endpoint_table_html(data.schema, data.rows@);
    let top = masthead_html(data.title@, data.environment@, data.hostname@) + statusbar_html(
        text_view(data.scrape_error),
        data.last_scrape,
        data.health_status,
        data.ready_status,
    ) + kpis_html(data.schema, data.rows@, data.totals, data.active_alerts@.len());
    let splits = processing_latency_splits_html(data.schema, data.rows@);
    let fleet = fleet_card_html(
        data.schema,
        data.hostname@,
        data.snapshot_gauges,
        data.workers@,
        data.tables@,
    );
    let explained = explainer_card_html(data.layout, data.tables@, data.last_shard@);
    lemma_occurs_after(part, top, table);
    lemma_occurs_before(part, top + table, splits);
    lemma_occurs_before(part, top + table + splits, fleet);
    lemma_occurs_before(part, top + table + splits + fleet, explained);
}

/// Every endpoint of the schema has a row on the page, even where the server
/// has reported nothing of it.
pub proof fn law_every_endpoint_has_a_row(data: DashboardData, i: int)
    requires
        data.wf(),
        0 <= i < data.schema.endpoints@.len(),
    ensures
        occurs_in("<th>"@ + escaped(data.schema.endpoints@[i]@) + "</th>"@, page_html(data)),
{
    let part = "<th>"@ + escaped(data.schema.endpoints@[i]@) + "</th>"@;
    assert(data.rows@[i].name@ == data.schema.endpoints@[i]@);
    lemma_row_in_cards(data, i);
    let front = PAGE_HEAD@ + escaped(data.title@)
        + "</title><noscript><meta http-equiv=\"refresh\" content=\""@ + decimal(
        REFRESH_SECONDS as nat,
    ) + "\"></noscript><style>"@ + STYLE@ + "</style></head><body><main id=\"app\">"@;
    let cards = data.cards();
    let grid = data.grid();
    let note = privacy_note_html();
    lemma_occurs_after(part, front, cards);
    let upto = front + cards;
    lemma_occurs_before(part, upto, "<div class=\"grid\">"@);
    let upto = upto + "<div class=\"grid\">"@;
    lemma_occurs_before(part, upto, grid);
    let upto = upto + grid;
    lemma_occurs_before(part, upto, "</div>"@);
    let upto = upto + "</div>"@;
    lemma_occurs_before(part, upto, note);
    let upto = upto + note;
    lemma_occurs_before(part, upto, "</main><script>"@);
    let upto = upto + "</main><script>"@;
    lemma_occurs_before(part, upto, SCRIPT@);
    let upto = upto + SCRIPT@;
    lemma_occurs_before(part, upto, "</script></body></html>"@);
}

proof fn lemma_one_more<T>(items: Seq<T>, each: spec_fn(T) -> Seq<char>)
    ensures
        items.len() == 0 ==> items.map_values(each).flatten() == Seq::<char>::empty(),
        items.len() > 0 ==> items.map_values(each).flatten() == items.drop_last().map_values(
            each,
        ).flatten() + each(items.last()),
{
    let lists = items.map_values(each);
    lists.lemma_flatten_and_flatten_alt_are_equivalent();
    if items.len() > 0 {
        assert(lists.drop_last() =~= items.drop_last().map_values(each));
        lists.drop_last().lemma_flatten_and_flatten_alt_are_equivalent();
    }
}

/// Every endpoint has its row in the table, in order.
pub proof fn law_every_endpoint_row_is_shown(schema: Schema, items: Seq<EndpointRow>)
    ensures
        endpoint_rows_html(schema, items) == items.map_values(|item: EndpointRow| endpoint_row_html(schema, item)).flatten(),
    decreases items.len(),
{
    let each = |item: EndpointRow| endpoint_row_html(schema, item);
    reveal_strlit("");
    assert(""@ =~= Seq::<char>::empty());
    lemma_one_more(items, each);
    if items.len() > 0 {
        law_every_endpoint_row_is_shown(schema, items.drop_last());
    }
    assert(endpoint_rows_html(schema, items) =~= items.map_values(each).flatten());
}

/// Every endpoint that is judged by its processing has its split, in order.
pub proof fn law_splits_are_shown_where_processing_counts(schema: Schema, items: Seq<EndpointRow>)
    ensures
        processing_latency_splits_html(schema, items) == items.map_values(|item: EndpointRow| if schema.processing_endpoints.members().contains(
            item.name@,
        ) || item.processing_available {
            latency_split_html(schema, item)
        } else {
            Seq::empty()
        }).flatten(),
    decreases items.len(),
{
    let each = |item: EndpointRow| if schema.processing_endpoints.members().contains(
            item.name@,
        ) || item.processing_available {
            latency_split_html(schema, item)
        } else {
            Seq::empty()
        };
    reveal_strlit("");
    assert(""@ =~= Seq::<char>::empty());
    lemma_one_more(items, each);
    if items.len() > 0 {
        law_splits_are_shown_where_processing_counts(schema, items.drop_last());
    }
    assert(processing_latency_splits_html(schema, items) =~= items.map_values(each).flatten());
}

/// Every share of a worker has its line, in order.
pub proof fn law_every_share_is_shown(items: Seq<ShareView>)
    ensures
        share_lines_html(items) == items.map_values(|item: ShareView| share_html(item)).flatten(),
    decreases items.len(),
{
    let each = |item: ShareView| share_html(item);
    reveal_strlit("");
    assert(""@ =~= Seq::<char>::empty());
    lemma_one_more(items, each);
    if items.len() > 0 {
        law_every_share_is_shown(items.drop_last());
    }
    assert(share_lines_html(items) =~= items.map_values(each).flatten());
}

/// Every worker is shown, in order.
pub proof fn law_every_worker_is_shown(newest: u64, items: Seq<WorkerView>)
    ensures
        worker_leaves_html(newest, items) == items.map_values(|item: WorkerView| worker_html(newest, item)).flatten(),
    decreases items.len(),
{
    let each = |item: WorkerView| worker_html(newest, item);
    reveal_strlit("");
    assert(""@ =~= Seq::<char>::empty());
    lemma_one_more(items, each);
    if items.len() > 0 {
        law_every_worker_is_shown(newest, items.drop_last());
    }
    assert(worker_leaves_html(newest, items) =~= items.map_values(each).flatten());
}

/// Every table has its card, in order.
pub proof fn law_every_table_has_a_card(items: Seq<TableView>)
    ensures
        table_cards_html(items) == items.map_values(|item: TableView| table_card_html(item)).flatten(),
    decreases items.len(),
{
    let each = |item: TableView| table_card_html(item);
    reveal_strlit("");
    assert(""@ =~= Seq::<char>::empty());
    lemma_one_more(items, each);
    if items.len() > 0 {
        law_every_table_has_a_card(items.drop_last());
    }
    assert(table_cards_html(items) =~= items.map_values(each).flatten());
}

/// Every table has its row in the explanation, in order.
pub proof fn law_every_table_is_explained(items: Seq<TableView>)
    ensures
        explained_rows_html(items) == items.map_values(|item: TableView| explained_row_html(item)).flatten(),
    decreases items.len(),
{
    let each = |item: TableView| explained_row_html(item);
    reveal_strlit("");
    assert(""@ =~= Seq::<char>::empty());
    lemma_one_more(items, each);
    if items.len() > 0 {
        law_every_table_is_explained(items.drop_last());
    }
    assert(explained_rows_html(items) =~= items.map_values(each).flatten());
}

/// Every active alert is shown, in order.
pub proof fn law_every_active_alert_is_shown(items: Seq<Alert>)
    ensures
        alert_items_html(items) == items.map_values(|item: Alert| alert_html(item)).flatten(),
    decreases items.len(),
{
    let each = |item: Alert| alert_html(item);
    reveal_strlit("");
    assert(""@ =~= Seq::<char>::empty());
    lemma_one_more(items, each);
    if items.len() > 0 {
        law_every_active_alert_is_shown(items.drop_last());
    }
    assert(alert_items_html(items) =~= items.map_values(each).flatten());
}

/// Every recorded alert is shown, in order.
pub proof fn law_every_recent_alert_is_shown(items: Seq<RecentAlert>)
    ensures
        recent_items_html(items) == items.map_values(|item: RecentAlert| recent_html(item)).flatten(),
    decreases items.len(),
{
    let each = |item: RecentAlert| recent_html(item);
    reveal_strlit("");
    assert(""@ =~= Seq::<char>::empty());
    lemma_one_more(items, each);
    if items.len() > 0 {
        law_every_recent_alert_is_shown(items.drop_last());
    }
    assert(recent_items_html(items) =~= items.map_values(each).flatten());
}

/// Every gauge has its row, in the order of their names.
pub proof fn law_every_gauge_is_shown(schema: Schema, entries: Seq<(String, Reading)>, n: int)
    requires
        0 <= n <= entries.len(),
    ensures
        gauge_rows_html(schema, entries, n) == entries.take(n).map_values(
            |entry: (String, Reading)|
                gauge_row_html(
                    entry.0@,
                    gauge_label(entry.0@, schema.gauge_prefix@),
                    entry.1.text@,
                ),
        ).flatten(),
    decreases n,
{
    let each = |entry: (String, Reading)|
        gauge_row_html(entry.0@, gauge_label(entry.0@, schema.gauge_prefix@), entry.1.text@);
    reveal_strlit("");
    assert(""@ =~= Seq::<char>::empty());
    lemma_one_more(entries.take(n), each);
    if n > 0 {
        law_every_gauge_is_shown(schema, entries, n - 1);
        assert(entries.take(n).drop_last() =~= entries.take(n - 1));
    }
    assert(gauge_rows_html(schema, entries, n) =~= entries.take(n).map_values(each).flatten());
}

/// The slowest p95 is one of those that count, none that counts is slower, and it is
/// no number only where none of them is.
pub proof fn law_the_slowest_p95_is_shown(schema: Schema, rows: Seq<EndpointRow>, n: int)
    requires
        0 <= n <= rows.len(),
    ensures
        match worst_p95(schema, rows, n) {
            Some(worst) => {
                &&& exists|i: int|
                    0 <= i < n && paged_p95(schema, #[trigger] rows[i]) == Some(worst)
                &&& forall|i: int|
                    0 <= i < n ==> (paged_p95(schema, #[trigger] rows[i]) matches Some(value)
                        ==> !less(worst.bits, value.bits) && (is_nan(worst.bits) ==> is_nan(
                        value.bits,
                    )))
            },
            None => forall|i: int| 0 <= i < n ==> paged_p95(schema, #[trigger] rows[i]) is None,
        },
    decreases n,
{
    if n > 0 {
        law_the_slowest_p95_is_shown(schema, rows, n - 1);
        let before = worst_p95(schema, rows, n - 1);
        let here = paged_p95(schema, rows[n - 1]);
        let worst = worst_p95(schema, rows, n);
        if let Some(most) = before {
            let i = choose|i: int|
                0 <= i < n - 1 && paged_p95(schema, #[trigger] rows[i]) == Some(most);
            if worst == before {
                assert(paged_p95(schema, rows[i]) == worst);
            } else {
                assert(paged_p95(schema, rows[n - 1]) == worst);
            }
        } else if worst is Some {
            assert(paged_p95(schema, rows[n - 1]) == worst);
        }
    }
}

/// An endpoint counts towards the slowest p95 by its processing where that is told
/// apart, by what clients saw where it is not, and not at all where it only informs.
pub proof fn law_what_an_endpoint_is_judged_by(schema: Schema, row: EndpointRow)
    ensures
        schema.informational_endpoints.members().contains(row.name@) ==> paged_p95(schema, row)
            is None,
        !schema.informational_endpoints.members().contains(row.name@) ==> paged_p95(schema, row)
            == if schema.processing_endpoints.members().contains(row.name@)
            || row.processing_available {
            row.processing.p95
        } else {
            row.observed.p95
        },
{
}

/// What a worker holds of a table is its last share of the table that has an index.
pub proof fn law_the_last_share_of_a_table_counts(shares: Seq<ShareView>, table: Seq<char>)
    ensures
        match held_share(shares, table) {
            Some((index, owned)) => exists|i: int|
                {
                    &&& 0 <= i < shares.len()
                    &&& (#[trigger] shares[i]).table@ == table
                    &&& shares[i].index == Some(index)
                    &&& shares[i].owned@ == owned
                    &&& forall|j: int|
                        i < j < shares.len() ==> (#[trigger] shares[j]).table@ != table
                            || shares[j].index is None
                },
            None => forall|j: int|
                0 <= j < shares.len() ==> (#[trigger] shares[j]).table@ != table
                    || shares[j].index is None,
        },
    decreases shares.len(),
{
    if shares.len() > 0 {
        let head = shares.drop_last();
        let last = shares.len() - 1;
        if shares[last].table@ == table && shares[last].index is Some {
            assert(shares[last].index == Some(shares[last].index->0));
        } else {
            law_the_last_share_of_a_table_counts(head, table);
            if let Some((index, owned)) = held_share(head, table) {
                let i = choose|i: int|
                    {
                        &&& 0 <= i < head.len()
                        &&& (#[trigger] head[i]).table@ == table
                        &&& head[i].index == Some(index)
                        &&& head[i].owned@ == owned
                        &&& forall|j: int|
                            i < j < head.len() ==> (#[trigger] head[j]).table@ != table
                                || head[j].index is None
                    };
                assert(shares[i] == head[i]);
                assert forall|j: int| i < j < shares.len() implies (#[trigger] shares[j]).table@
                    != table || shares[j].index is None by {
                    if j < last {
                        assert(head[j] == shares[j]);
                    }
                }
            } else {
                assert forall|j: int| 0 <= j < shares.len() implies (#[trigger] shares[j]).table@
                    != table || shares[j].index is None by {
                    if j < last {
                        assert(head[j] == shares[j]);
                    }
                }
            }
        }
    }
}

/// The holders of a table are the workers with a share of it, in their order.
pub proof fn law_every_holder_of_a_table_is_listed(workers: Seq<WorkerShares>, table: Seq<char>)
    ensures
        holder_views(workers, table) == workers.filter(
            |worker: WorkerShares| held_share(worker.shares@, table) is Some,
        ).map_values(
            |worker: WorkerShares|
                (
                    worker.worker@,
                    (held_share(worker.shares@, table)->0).0,
                    (held_share(worker.shares@, table)->0).1,
                ),
        ),
    decreases workers.len(),
{
    reveal(Seq::filter);
    let holds = |worker: WorkerShares| held_share(worker.shares@, table) is Some;
    let view = |worker: WorkerShares|
        (
            worker.worker@,
            (held_share(worker.shares@, table)->0).0,
            (held_share(worker.shares@, table)->0).1,
        );
    if workers.len() > 0 {
        law_every_holder_of_a_table_is_listed(workers.drop_last(), table);
    }
    assert(holder_views(workers, table) =~= workers.filter(holds).map_values(view));
}

/// The shards per worker are those of the first table that reports them.
pub proof fn law_shards_per_worker_are_those_of_the_first_report(tables: Seq<TableView>, from: int)
    requires
        0 <= from,
    ensures
        match per_worker_from(tables, from) {
            Some(reading) => exists|i: int|
                {
                    &&& from <= i < tables.len()
                    &&& (#[trigger] tables[i]).gauges.values().contains_key("shards_per_worker"@)
                    &&& tables[i].gauges.values()["shards_per_worker"@] == reading
                    &&& forall|j: int|
                        from <= j < i ==> !(#[trigger] tables[j]).gauges.values().contains_key(
                            "shards_per_worker"@,
                        )
                },
            None => forall|j: int|
                from <= j < tables.len() ==> !(#[trigger] tables[j]).gauges.values().contains_key(
                    "shards_per_worker"@,
                ),
        },
    decreases tables.len() - from,
{
    if from < tables.len() {
        if tables[from].gauges.values().contains_key("shards_per_worker"@) {
            assert(tables[from].gauges.values()["shards_per_worker"@] == per_worker_from(
                tables,
                from,
            )->0);
        } else {
            law_shards_per_worker_are_those_of_the_first_report(tables, from + 1);
            if let Some(reading) = per_worker_from(tables, from) {
                let i = choose|i: int|
                    {
                        &&& from + 1 <= i < tables.len()
                        &&& (#[trigger] tables[i]).gauges.values().contains_key(
                            "shards_per_worker"@,
                        )
                        &&& tables[i].gauges.values()["shards_per_worker"@] == reading
                        &&& forall|j: int|
                            from + 1 <= j < i ==> !(
                            #[trigger] tables[j]).gauges.values().contains_key(
                                "shards_per_worker"@,
                            )
                    };
                assert(tables[i].gauges.values()["shards_per_worker"@] == reading);
            }
        }
    }
}

/// The holders of a table are listed one after the other with a dot between them.
pub proof fn law_holders_are_listed_with_dots_between(holders: Seq<Holder>, last: Holder)
    ensures
        holder_list_html(holders.push(last)) == (if holders.len() == 0 {
            Seq::empty()
        } else {
            holder_list_html(holders) + " &middot; "@
        }) + escaped(last.worker@) + ": "@ + last.owned@,
{
    assert(holders.push(last).drop_last() =~= holders);
    assert(holder_list_html(holders.push(last)) =~= (if holders.len() == 0 {
        Seq::empty()
    } else {
        holder_list_html(holders) + " &middot; "@
    }) + escaped(last.worker@) + ": "@ + last.owned@);
}

/// Memory is shown as short below half a gibibyte and as getting short below one.
pub proof fn law_short_memory_is_shown(available: u64)
    ensures
        available < 536_870_912 <==> memory_tone(available) == "bad"@,
        536_870_912 <= available < 1_073_741_824 <==> memory_tone(available) == "warn"@,
        available >= 1_073_741_824 <==> memory_tone(available) == ""@,
{
    reveal_strlit("bad");
    reveal_strlit("warn");
    reveal_strlit("");
    assert("bad"@.len() == 3 && "warn"@.len() == 4 && ""@.len() == 0);
}

/// A latency is shown as bad from its limit on, as a warning from the warning level on,
/// and without a budget never.
pub proof fn law_latencies_over_their_budget_are_shown(bits: u64, budget: Option<Budget>)
    ensures
        latency_tone(bits, budget) == "bad"@ <==> (budget matches Some(budget) && (less(
            budget.limit,
            bits,
        ) || equal(bits, budget.limit))),
        latency_tone(bits, budget) == "warn"@ <==> (budget matches Some(budget) && !(less(
            budget.limit,
            bits,
        ) || equal(bits, budget.limit)) && (less(budget.warn, bits) || equal(bits, budget.warn))),
{
    reveal_strlit("bad");
    reveal_strlit("warn");
    reveal_strlit("");
    assert("bad"@.len() == 3 && "warn"@.len() == 4 && ""@.len() == 0);
}

/// A worker is healthy where it is up and on the newest generation, or where one of the
/// two is not known; it lags where both are known and differ.
pub proof fn law_lagging_and_unreachable_workers_are_shown(up: Option<u64>, own: u64, newest: u64)
    ensures
        worker_state(up, own, newest).1 == "unknown"@ <==> up is None,
        worker_state(up, own, newest).1 == "unreachable"@ <==> (up is Some && !is_set(up)),
        worker_state(up, own, newest).1 == "generation lag"@ <==> (is_set(up) && less(0, newest)
            && less(0, own) && !equal(own, newest)),
{
    reveal_strlit("unknown");
    reveal_strlit("unreachable");
    reveal_strlit("generation lag");
    reveal_strlit("healthy");
    assert("unknown"@.len() == 7 && "unreachable"@.len() == 11 && "generation lag"@.len() == 14);
    assert("unknown"@[0] == 'u' && "healthy"@[0] == 'h' && "healthy"@.len() == 7);
}

} // verus!
