//! Small pieces of the page: escaping, tones, and figures in words.

use vstd::prelude::*;

use crate::text::{
    begins_with, chars_of, cut_prefix, cut_suffix, decimal, digit, ends_with, push_decimal, same_text,
};

verus! {

/// Free memory below which a host is in trouble: 512 MiB.
pub const MEMORY_AVAILABLE_BYTES: u64 = 536_870_912;

/// Seconds between two refreshes of the page.
pub const REFRESH_SECONDS: u64 = 15;

/// What a character is written as, so that it is nothing but text.
pub open spec fn entity(c: char) -> Seq<char> {
    if c == '&' {
        "&amp;"@
    } else if c == '<' {
        "&lt;"@
    } else if c == '>' {
        "&gt;"@
    } else if c == '"' {
        "&quot;"@
    } else if c == '\'' {
        "&#39;"@
    } else {
        seq![c]
    }
}

/// A text as it is written into the page.
pub open spec fn escaped(text: Seq<char>) -> Seq<char>
    decreases text.len(),
{
    if text.len() == 0 {
        Seq::empty()
    } else {
        escaped(text.drop_last()) + entity(text.last())
    }
}

/// A text as it is written into the page.
pub fn escape(input: &str) -> (out: String)
    ensures
        out@ == escaped(input@),
{
    let chars = chars_of(input);
    let mut out = String::new();
    let mut i: usize = 0;
    assert(out@ =~= escaped(input@.take(0)));
    while i < chars.len()
        invariant
            i <= chars.len(),
            chars@ == input@,
            out@ == escaped(input@.take(i as int)),
        decreases chars.len() - i,
    {
        assert(input@.take(i + 1).drop_last() =~= input@.take(i as int));
        let c: char = chars[i];
        let ghost before = out@;
        if c == '&' {
            out.append("&amp;");
        } else if c == '<' {
            out.append("&lt;");
        } else if c == '>' {
            out.append("&gt;");
        } else if c == '"' {
            out.append("&quot;");
        } else if c == '\'' {
            out.append("&#39;");
        } else {
            out.push(c);
            assert(out@ =~= before + seq![c]);
        }
        i = i + 1;
    }
    assert(input@.take(i as int) =~= input@);
    out
}

/// Characters that would end a text or begin a tag.
pub open spec fn is_markup(c: char) -> bool {
    c == '<' || c == '>' || c == '"' || c == '\''
}

/// No text that is written into the page can begin a tag or end an attribute:
/// what is written holds none of the characters for that.
pub proof fn law_escaped_text_is_inert(text: Seq<char>, i: int)
    requires
        0 <= i < escaped(text).len(),
    ensures
        !is_markup(escaped(text)[i]),
    decreases text.len(),
{
    let head = escaped(text.drop_last());
    let tail = entity(text.last());
    reveal_strlit("&amp;");
    reveal_strlit("&lt;");
    reveal_strlit("&gt;");
    reveal_strlit("&quot;");
    reveal_strlit("&#39;");
    if i < head.len() {
        law_escaped_text_is_inert(text.drop_last(), i);
        assert(escaped(text)[i] == head[i]);
    } else {
        let k = i - head.len();
        assert(escaped(text)[i] == tail[k]);
        assert(!is_markup(tail[k]));
    }
}

/// Whether an entity stands at the start.
pub open spec fn starts_with_entity(text: Seq<char>) -> bool {
    ||| begins_with(text, "&amp;"@)
    ||| begins_with(text, "&lt;"@)
    ||| begins_with(text, "&gt;"@)
    ||| begins_with(text, "&quot;"@)
    ||| begins_with(text, "&#39;"@)
}

/// Every ampersand that is written into the page begins an entity.
pub proof fn law_ampersands_begin_entities(text: Seq<char>, i: int)
    requires
        0 <= i < escaped(text).len(),
        escaped(text)[i] == '&',
    ensures
        starts_with_entity(escaped(text).skip(i)),
    decreases text.len(),
{
    let head = escaped(text.drop_last());
    let tail = entity(text.last());
    let whole = escaped(text);
    reveal_strlit("&amp;");
    reveal_strlit("&lt;");
    reveal_strlit("&gt;");
    reveal_strlit("&quot;");
    reveal_strlit("&#39;");
    if i < head.len() {
        assert(whole[i] == head[i]);
        law_ampersands_begin_entities(text.drop_last(), i);
        let before = head.skip(i);
        let after = whole.skip(i);
        assert forall|n: int| 0 <= n <= before.len() implies #[trigger] after.take(n)
            == before.take(n) by {
            assert(after.take(n) =~= before.take(n));
        }
        if begins_with(before, "&amp;"@) {
            assert(after.take(5) == before.take(5));
        } else if begins_with(before, "&lt;"@) {
            assert(after.take(4) == before.take(4));
        } else if begins_with(before, "&gt;"@) {
            assert(after.take(4) == before.take(4));
        } else if begins_with(before, "&quot;"@) {
            assert(after.take(6) == before.take(6));
        } else {
            assert(after.take(5) == before.take(5));
        }
    } else {
        let k = i - head.len();
        assert(whole[i] == tail[k]);
        assert(k == 0);
        assert(whole.skip(i) =~= tail);
        assert(tail.take(tail.len() as int) =~= tail);
    }
}

/// A text as a page shows it: its entities decoded once, from left to right.
pub open spec fn decoded(text: Seq<char>) -> Seq<char>
    decreases text.len(),
{
    if text.len() == 0 {
        Seq::empty()
    } else if text.len() >= 5 && begins_with(text, "&amp;"@) {
        seq!['&'] + decoded(text.skip(5))
    } else if text.len() >= 4 && begins_with(text, "&lt;"@) {
        seq!['<'] + decoded(text.skip(4))
    } else if text.len() >= 4 && begins_with(text, "&gt;"@) {
        seq!['>'] + decoded(text.skip(4))
    } else if text.len() >= 6 && begins_with(text, "&quot;"@) {
        seq!['"'] + decoded(text.skip(6))
    } else if text.len() >= 5 && begins_with(text, "&#39;"@) {
        seq!['\''] + decoded(text.skip(5))
    } else {
        seq![text[0]] + decoded(text.skip(1))
    }
}

proof fn lemma_escaped_first(text: Seq<char>)
    requires
        text.len() > 0,
    ensures
        escaped(text) == entity(text[0]) + escaped(text.skip(1)),
    decreases text.len(),
{
    if text.len() == 1 {
        assert(text.drop_last() =~= Seq::<char>::empty());
        assert(text.skip(1) =~= Seq::<char>::empty());
        assert(escaped(text.drop_last()) =~= Seq::<char>::empty());
        assert(escaped(text) =~= entity(text[0]) + escaped(text.skip(1)));
    } else {
        lemma_escaped_first(text.drop_last());
        assert(text.drop_last().skip(1) =~= text.skip(1).drop_last());
        assert(escaped(text) =~= entity(text[0]) + escaped(text.skip(1)));
    }
}

/// Decoding what is written into the page gives the text back: nothing is
/// escaped twice, and different texts are written differently.
pub proof fn law_decoding_gives_the_text_back(text: Seq<char>)
    ensures
        decoded(escaped(text)) == text,
    decreases text.len(),
{
    if text.len() == 0 {
        assert(decoded(escaped(text)) =~= text);
    } else {
        let rest = text.skip(1);
        law_decoding_gives_the_text_back(rest);
        lemma_escaped_first(text);
        let part = entity(text[0]);
        let whole = escaped(text);
        reveal_strlit("&amp;");
        reveal_strlit("&lt;");
        reveal_strlit("&gt;");
        reveal_strlit("&quot;");
        reveal_strlit("&#39;");
        assert(whole.skip(part.len() as int) =~= escaped(rest));
        assert(whole.take(part.len() as int) =~= part);
        assert forall|i: int| 0 <= i < part.len() implies whole[i] == part[i] by {}
        assert(whole.len() >= 4 ==> whole.take(4)[0] == whole[0] && whole.take(4)[1] == whole[1]);
        assert(whole.len() >= 5 ==> whole.take(5)[0] == whole[0] && whole.take(5)[1] == whole[1]);
        assert(whole.len() >= 6 ==> whole.take(6)[0] == whole[0] && whole.take(6)[1] == whole[1]);
        assert(decoded(whole) == seq![text[0]] + decoded(escaped(rest)));
        assert(seq![text[0]] + rest =~= text);
    }
}

/// A tone as one more class name.
pub open spec fn tone_suffix(tone: Seq<char>) -> Seq<char> {
    if tone.len() == 0 {
        ""@
    } else {
        " "@ + tone
    }
}

pub fn class_suffix(tone: &str) -> (suffix: String)
    ensures
        suffix@ == tone_suffix(tone@),
{
    if tone.unicode_len() == 0 {
        String::from_str("")
    } else {
        let mut suffix = String::from_str(" ");
        suffix.append(tone);
        suffix
    }
}

pub open spec fn toned_chip_html(tone: Seq<char>, label: Seq<char>, value: Seq<char>) -> Seq<char> {
    "<span class=\"chip "@ + tone + "\"><span class=\"dot\"></span>"@ + label + " <b>"@ + value + "</b></span>"@
}

/// A labelled value with a tone.
fn toned_chip(tone: &str, label: &str, value: &str) -> (html: String)
    ensures
        html@ == toned_chip_html(tone@, label@, value@),
{
    let mut html = String::from_str("<span class=\"chip ");
    html.append(tone);
    html.append("\"><span class=\"dot\"></span>");
    html.append(label);
    html.append(" <b>");
    html.append(value);
    html.append("</b></span>");
    html
}

/// A labelled value that is fine or not.
pub open spec fn chip_html(label: Seq<char>, value: Seq<char>, ok: bool) -> Seq<char> {
    toned_chip_html(
        if ok {
            "is-ok"@
        } else {
            "is-bad"@
        },
        label,
        value,
    )
}

pub fn chip(label: &str, value: &str, ok: bool) -> (html: String)
    ensures
        html@ == chip_html(label@, value@, ok),
{
    if ok {
        toned_chip("is-ok", label, value)
    } else {
        toned_chip("is-bad", label, value)
    }
}

/// A status code, which is fine if it says success.
pub open spec fn status_chip_html(label: Seq<char>, code: Option<u16>) -> Seq<char> {
    match code {
        Some(code) => chip_html(label, decimal(code as nat), 200 <= code < 300),
        None => chip_html(label, "n/a"@, false),
    }
}

pub fn status_chip(label: &str, code: Option<u16>) -> (html: String)
    ensures
        html@ == status_chip_html(label@, code),
{
    match code {
        Some(code) => {
            let mut text = String::new();
            push_decimal(&mut text, code as u64);
            assert(text@ =~= decimal(code as nat));
            chip(label, text.as_str(), 200 <= code && code < 300)
        },
        None => chip(label, "n/a", false),
    }
}

pub open spec fn kpi_html(label: Seq<char>, figure: Seq<char>, unit: Seq<char>, tone: Seq<char>) -> Seq<char> {
    "<div class=\"kpi\"><p class=\"eyebrow\">"@ + label + "</p><p class=\"figure"@ + tone_suffix(tone) + "\">"@ + figure + "</p><p class=\"unit\">"@ + unit + "</p></div>"@
}

/// One headline figure.
pub fn kpi(label: &str, figure: &str, unit: &str, tone: &str) -> (html: String)
    ensures
        html@ == kpi_html(label@, figure@, unit@, tone@),
{
    let mut html = String::from_str("<div class=\"kpi\"><p class=\"eyebrow\">");
    html.append(label);
    html.append("</p><p class=\"figure");
    html.append(class_suffix(tone).as_str());
    html.append("\">");
    html.append(figure);
    html.append("</p><p class=\"unit\">");
    html.append(unit);
    html.append("</p></div>");
    html
}

/// A number in decimal.
pub fn decimal_text(n: u64) -> (text: String)
    ensures
        text@ == decimal(n as nat),
{
    let mut text = String::new();
    push_decimal(&mut text, n);
    assert(text@ =~= decimal(n as nat));
    text
}

/// An age in words. What is not in the past is now.
pub open spec fn age_text(seconds: Option<u64>) -> Seq<char> {
    match seconds {
        None => "just now"@,
        Some(s) => if s < 5 {
            "just now"@
        } else if s < 60 {
            decimal(s as nat) + "s ago"@
        } else if s < 3600 {
            decimal((s / 60) as nat) + "m ago"@
        } else if s < 86400 {
            decimal((s / 3600) as nat) + "h ago"@
        } else {
            decimal((s / 86400) as nat) + "d ago"@
        },
    }
}

/// An age in words, from the whole seconds since; nothing stands for a time
/// that is not in the past.
pub fn relative_time(elapsed_seconds: Option<u64>) -> (text: String)
    ensures
        text@ == age_text(elapsed_seconds),
{
    let seconds: u64 = match elapsed_seconds {
        Some(seconds) => seconds,
        None => {
            return String::from_str("just now");
        },
    };
    if seconds < 5 {
        String::from_str("just now")
    } else if seconds < 60 {
        let mut text = decimal_text(seconds);
        text.append("s ago");
        text
    } else if seconds < 3600 {
        let mut text = decimal_text(seconds / 60);
        text.append("m ago");
        text
    } else if seconds < 86400 {
        let mut text = decimal_text(seconds / 3600);
        text.append("h ago");
        text
    } else {
        let mut text = decimal_text(seconds / 86400);
        text.append("d ago");
        text
    }
}

/// A time as RFC 3339 text in UTC, from its seconds since the Unix epoch;
/// nothing for a time that chrono's calendar does not reach.
pub uninterp spec fn rfc3339_text(seconds: i64) -> Option<Seq<char>>;

/// Calls chrono's `DateTime::from_timestamp` and, on what it returns,
/// `DateTime::to_rfc3339`. Claims that the text depends on the seconds alone.
#[verifier::external_body]
fn utc_text(seconds: i64) -> (text: Option<String>)
    ensures
        match text {
            Some(text) => rfc3339_text(seconds) == Some(text@),
            None => rfc3339_text(seconds) is None,
        },
{
    chrono::DateTime::from_timestamp(seconds, 0).map(|value| value.to_rfc3339())
}

/// A time in words, given its text if it has one.
pub fn time_or_seconds(text: Option<String>, seconds: u64) -> (out: String)
    ensures
        out@ == (match text {
            Some(text) => text@,
            None => decimal(seconds as nat),
        }),
{
    match text {
        Some(text) => text,
        None => decimal_text(seconds),
    }
}

/// A time in words.
pub open spec fn clock_text(seconds: u64) -> Seq<char> {
    match rfc3339_text(seconds as i64) {
        Some(text) => text,
        None => decimal(seconds as nat),
    }
}

/// A time, given in seconds since the Unix epoch, in words.
pub fn time(seconds: u64) -> (text: String)
    ensures
        text@ == clock_text(seconds),
{
    #[verifier::truncate]
    let signed: i64 = seconds as i64;
    time_or_seconds(utc_text(signed), seconds)
}

/// A quotient, rounded to the nearest whole number, halves to the even one.
pub open spec fn rounded(a: nat, b: nat) -> nat {
    let q = a / b;
    let r = a % b;
    if 2 * r > b || (2 * r == b && q % 2 == 1) {
        q + 1
    } else {
        q
    }
}

fn round_div(a: u128, b: u128) -> (q: u128)
    requires
        0 < b <= 0x1_0000_0000_0000_0000,
        a <= 0x100_0000_0000_0000_0000,
    ensures
        q == rounded(a as nat, b as nat),
{
    let q: u128 = a / b;
    let r: u128 = a % b;
    assert(q <= a) by (nonlinear_arith)
        requires
            q == a / b,
            b > 0,
    ;
    assert(r < b);
    if 2 * r > b || (2 * r == b && q % 2 == 1) {
        q + 1
    } else {
        q
    }
}

/// Distance of neighbouring binary64 numbers at a whole number.
pub open spec fn spacing(n: nat) -> nat
    decreases n,
{
    if n < 0x20_0000_0000_0000 {
        1
    } else {
        2 * spacing(n / 2)
    }
}

/// The binary64 number nearest to a whole number.
pub open spec fn nearest_double(n: nat) -> nat {
    rounded(n, spacing(n)) * spacing(n)
}

proof fn lemma_spacing(n: nat)
    ensures
        1 <= spacing(n),
        spacing(n) == 1 || spacing(n) <= n,
    decreases n,
{
    if n >= 0x20_0000_0000_0000 {
        lemma_spacing(n / 2);
    }
}

fn nearest(n: u64) -> (value: u128)
    ensures
        value == nearest_double(n as nat),
        value <= 0x2_0000_0000_0000_0000,
{
    let mut m: u64 = n;
    let mut step: u128 = 1;
    assert(1 * spacing(n as nat) == spacing(n as nat));
    while m >= 0x20_0000_0000_0000
        invariant
            m <= n,
            1 <= step,
            step * spacing(m as nat) == spacing(n as nat),
            step * m <= n,
        decreases m,
    {
        let ghost before = m as nat;
        m = m / 2;
        proof {
            let s = step as nat;
            assert((s * 2) * spacing(m as nat) == s * (2 * spacing(m as nat))) by (nonlinear_arith);
            assert((s * 2) * m <= s * before) by (nonlinear_arith)
                requires
                    2 * m <= before,
                    s >= 0,
            ;
            assert(s <= s * before) by (nonlinear_arith)
                requires
                    before >= 1,
                    s >= 0,
            ;
        }
        step = 2 * step;
    }
    proof {
        assert(spacing(m as nat) == 1);
        assert(step * 1 == step);
        lemma_spacing(n as nat);
    }
    let q: u128 = round_div(n as u128, step);
    proof {
        let a = n as nat;
        let s = step as nat;
        assert(q * s <= a + s) by (nonlinear_arith)
            requires
                q == a / s || q == a / s + 1,
                s > 0,
        ;
    }
    q * step
}

/// Bytes in words: in GiB with two decimals from one GiB on, in MiB with one
/// decimal below.
pub open spec fn size_text(bytes: u64) -> Seq<char> {
    let value = nearest_double(bytes as nat);
    if value >= 0x4000_0000 {
        let hundredths = rounded(100 * value, 0x4000_0000);
        decimal(hundredths / 100) + "."@ + seq![
            digit((hundredths / 10) % 10),
            digit(hundredths % 10),
        ] + " GiB"@
    } else {
        let tenths = rounded(10 * value, 0x10_0000);
        decimal(tenths / 10) + "."@ + seq![digit(tenths % 10)] + " MiB"@
    }
}

/// Bytes in words.
pub fn bytes_human(bytes: u64) -> (text: String)
    ensures
        text@ == size_text(bytes),
{
    let value: u128 = nearest(bytes);
    if value >= 0x4000_0000 {
        let hundredths: u128 = round_div(100 * value, 0x4000_0000);
        assert(hundredths <= (100 * value) / 0x4000_0000 + 1);
        let mut text = decimal_text((hundredths / 100) as u64);
        text.append(".");
        let ghost before = text@;
        text.push((48 + ((hundredths / 10) % 10) as u8) as char);
        text.push((48 + (hundredths % 10) as u8) as char);
        assert(text@ =~= before + seq![
            digit((hundredths as nat / 10) % 10),
            digit(hundredths as nat % 10),
        ]);
        text.append(" GiB");
        text
    } else {
        let tenths: u128 = round_div(10 * value, 0x10_0000);
        assert(tenths <= (10 * value) / 0x10_0000 + 1);
        let mut text = decimal_text((tenths / 10) as u64);
        text.append(".");
        let ghost before = text@;
        text.push((48 + (tenths % 10) as u8) as char);
        assert(text@ =~= before + seq![digit(tenths as nat % 10)]);
        text.append(" MiB");
        text
    }
}

/// A name with blanks for underscores and a capital first.
pub open spec fn readable(name: Seq<char>) -> Seq<char> {
    Seq::new(
        name.len(),
        |i: int|
            if name[i] == '_' {
                ' '
            } else if i == 0 && 'a' <= name[i] <= 'z' {
                (name[i] as nat - 32) as char
            } else {
                name[i]
            },
    )
}

fn readable_text(name: &str) -> (text: String)
    ensures
        text@ == readable(name@),
{
    let chars = chars_of(name);
    let mut text = String::new();
    let mut i: usize = 0;
    while i < chars.len()
        invariant
            i <= chars.len(),
            chars@ == name@,
            text@ == readable(name@).take(i as int),
        decreases chars.len() - i,
    {
        let c: char = chars[i];
        if c == '_' {
            text.push(' ');
        } else if i == 0 && 'a' <= c && c <= 'z' {
            text.push(((c as u8) - 32) as char);
        } else {
            text.push(c);
        }
        assert(text@ =~= readable(name@).take(i + 1));
        i = i + 1;
    }
    assert(readable(name@).take(i as int) =~= readable(name@));
    text
}

/// Whether a name is something in a unit.
pub open spec fn in_unit(stem: Seq<char>, unit: Seq<char>) -> bool {
    ends_with(stem, "_"@ + unit) && stem.len() > ("_"@ + unit).len()
}

/// A name without its unit, with the unit in brackets.
pub open spec fn with_unit(stem: Seq<char>, unit: Seq<char>) -> Seq<char> {
    readable(stem.take(stem.len() - ("_"@ + unit).len())) + " ("@ + unit + ")"@
}

/// A gauge's name in words.
pub open spec fn gauge_label(name: Seq<char>, prefix: Seq<char>) -> Seq<char> {
    let stem = if begins_with(name, prefix) {
        name.skip(prefix.len() as int)
    } else {
        name
    };
    if in_unit(stem, "seconds"@) {
        with_unit(stem, "seconds"@)
    } else if in_unit(stem, "bytes"@) {
        with_unit(stem, "bytes"@)
    } else if in_unit(stem, "ratio"@) {
        with_unit(stem, "ratio"@)
    } else {
        readable(stem)
    }
}

fn unit_label(stem: &str, unit: &str) -> (label: Option<String>)
    ensures
        match label {
            Some(label) => in_unit(stem@, unit@) && label@ == with_unit(stem@, unit@),
            None => !in_unit(stem@, unit@),
        },
{
    let mut suffix = String::from_str("_");
    suffix.append(unit);
    match cut_suffix(stem, suffix.as_str()) {
        Some(rest) => {
            if rest.as_str().unicode_len() == 0 {
                None
            } else {
                let mut label = readable_text(rest.as_str());
                label.append(" (");
                label.append(unit);
                label.append(")");
                Some(label)
            }
        },
        None => None,
    }
}

/// A gauge's name in words: without the prefix, a trailing unit in brackets.
/// A name that is only a unit stays a name.
pub fn humanize_gauge(name: &str, gauge_prefix: &str) -> (label: String)
    ensures
        label@ == gauge_label(name@, gauge_prefix@),
{
    let stem = match cut_prefix(name, gauge_prefix) {
        Some(rest) => rest,
        None => String::from_str(name),
    };
    if let Some(label) = unit_label(stem.as_str(), "seconds") {
        return label;
    }
    if let Some(label) = unit_label(stem.as_str(), "bytes") {
        return label;
    }
    if let Some(label) = unit_label(stem.as_str(), "ratio") {
        return label;
    }
    readable_text(stem.as_str())
}

/// The enhancement table comes first.
pub open spec fn rank_of(name: Seq<char>) -> nat {
    if name == "enhance"@ {
        0
    } else {
        1
    }
}

pub fn table_rank(name: &str) -> (rank: usize)
    ensures
        rank == rank_of(name@),
{
    if same_text(name, "enhance") {
        0
    } else {
        1
    }
}

pub open spec fn meter_html(label: Seq<char>, detail: Seq<char>, whole_percent: Seq<char>, percent: Seq<char>, tone: Seq<char>) -> Seq<char> {
    "<div class=\"meter\"><div class=\"meter-head\"><span class=\"k\">"@ + label + "</span><span class=\"v"@ + tone_suffix(tone) + "\">"@ + whole_percent + "% used</span></div><div class=\"bar\"><i class=\""@ + tone + "\" style=\"width:"@ + percent + "%\"></i></div><p class=\"meter-foot\">"@ + detail + "</p></div>"@
}

/// A bar with its figures.
pub fn meter(label: &str, detail: &str, whole_percent: &str, percent: &str, tone: &str) -> (html: String)
    ensures
        html@ == meter_html(label@, detail@, whole_percent@, percent@, tone@),
{
    let mut html = String::from_str("<div class=\"meter\"><div class=\"meter-head\"><span class=\"k\">");
    html.append(label);
    html.append("</span><span class=\"v");
    html.append(class_suffix(tone).as_str());
    html.append("\">");
    html.append(whole_percent);
    html.append("% used</span></div><div class=\"bar\"><i class=\"");
    html.append(tone);
    html.append("\" style=\"width:");
    html.append(percent);
    html.append("%\"></i></div><p class=\"meter-foot\">");
    html.append(detail);
    html.append("</p></div>");
    html
}

pub open spec fn privacy_note_html() -> Seq<char> {
    "<p class=\"note\"><strong>Privacy.</strong> This sidecar scrapes only aggregate, allowlisted PIR metrics and local host health. It does not collect request bodies, positions, IP addresses, headers, query identifiers, or any other per-user data. Every value on this page is server-rendered; the browser polls this dashboard every "@ + decimal(REFRESH_SECONDS as nat) + " seconds and never contacts the PIR server or its <code>/metrics</code> endpoint.</p>"@
}

/// What the sidecar does not collect.
pub fn privacy_note() -> (html: String)
    ensures
        html@ == privacy_note_html(),
{
    let mut html = String::from_str("<p class=\"note\"><strong>Privacy.</strong> This sidecar scrapes only aggregate, allowlisted PIR metrics and local host health. It does not collect request bodies, positions, IP addresses, headers, query identifiers, or any other per-user data. Every value on this page is server-rendered; the browser polls this dashboard every ");
    html.append(decimal_text(REFRESH_SECONDS).as_str());
    html.append(" seconds and never contacts the PIR server or its <code>/metrics</code> endpoint.</p>");
    html
}

/// A quotient is rounded to the nearest whole number, and to the even one of two that
/// are equally near.
pub proof fn law_quotients_are_rounded_to_the_nearest(a: nat, b: nat)
    requires
        b > 0,
    ensures
        ({
            let off = a - rounded(a, b) * b;
            &&& -(b as int) <= 2 * off <= b
            &&& 2 * off == b || 2 * off == -(b as int) ==> rounded(a, b) % 2 == 0
        }),
{
    let q = a / b;
    let r = a % b;
    vstd::arithmetic::div_mod::lemma_fundamental_div_mod(a as int, b as int);
    assert(b * q == q * b) by (nonlinear_arith);
    assert((q + 1) * b == q * b + b) by (nonlinear_arith);
}

/// Whole numbers below two to the fifty-third are all held; above, one in so many
/// that the quotient has fifty-three bits.
pub proof fn law_doubles_hold_fifty_three_bits(n: nat)
    ensures
        spacing(n) >= 1,
        n < 0x20_0000_0000_0000 * spacing(n),
        spacing(n) == 1 || 0x10_0000_0000_0000 * spacing(n) <= n,
    decreases n,
{
    if n >= 0x20_0000_0000_0000 {
        law_doubles_hold_fifty_three_bits(n / 2);
    }
}

/// The double nearest to a whole number is off by at most half the spacing there.
pub proof fn law_nearest_doubles_are_near(n: nat)
    ensures
        n < 0x20_0000_0000_0000 ==> nearest_double(n) == n,
        -(spacing(n) as int) <= 2 * (n - nearest_double(n)) <= spacing(n),
        nearest_double(n) % spacing(n) == 0,
{
    law_doubles_hold_fifty_three_bits(n);
    law_quotients_are_rounded_to_the_nearest(n, spacing(n));
    if n < 0x20_0000_0000_0000 {
        vstd::arithmetic::div_mod::lemma_div_basics(n as int);
        assert(rounded(n, 1) == n) by {
            assert(n / 1 == n && n % 1 == 0);
        }
    }
    vstd::arithmetic::div_mod::lemma_mod_multiples_basic(
        rounded(n, spacing(n)) as int,
        spacing(n) as int,
    );
}

/// An age is told in the largest unit that it has one of, in whole units.
pub proof fn law_ages_are_told_in_the_largest_unit(s: u64, k: nat)
    ensures
        s < 5 ==> age_text(Some(s)) == "just now"@,
        5 <= s < 60 && k == s ==> age_text(Some(s)) == decimal(k) + "s ago"@,
        1 <= k < 60 && 60 * k <= s < 60 * (k + 1) ==> age_text(Some(s)) == decimal(k) + "m ago"@,
        1 <= k < 24 && 3_600 * k <= s < 3_600 * (k + 1) ==> age_text(Some(s)) == decimal(k)
            + "h ago"@,
        1 <= k && 86_400 * k <= s < 86_400 * (k + 1) ==> age_text(Some(s)) == decimal(k)
            + "d ago"@,
{
}

/// Sizes from a gibibyte on are told in hundredths of gibibytes, others in tenths of
/// mebibytes, to the nearest.
pub proof fn law_sizes_are_told_to_the_nearest(bytes: u64) -> (figure: nat)
    requires
        bytes < 0x20_0000_0000_0000,
    ensures
        bytes >= 0x4000_0000 ==> {
            &&& -0x4000_0000 <= 2 * (100 * bytes - figure * 0x4000_0000) <= 0x4000_0000
            &&& size_text(bytes) == decimal(figure / 100) + "."@ + seq![
                ('0' as nat + figure / 10 % 10) as char,
                ('0' as nat + figure % 10) as char,
            ] + " GiB"@
        },
        bytes < 0x4000_0000 ==> {
            &&& -0x10_0000 <= 2 * (10 * bytes - figure * 0x10_0000) <= 0x10_0000
            &&& size_text(bytes) == decimal(figure / 10) + "."@ + seq![
                ('0' as nat + figure % 10) as char,
            ] + " MiB"@
        },
{
    law_nearest_doubles_are_near(bytes as nat);
    if bytes >= 0x4000_0000 {
        law_quotients_are_rounded_to_the_nearest((100 * bytes) as nat, 0x4000_0000);
        rounded((100 * bytes) as nat, 0x4000_0000)
    } else {
        law_quotients_are_rounded_to_the_nearest((10 * bytes) as nat, 0x10_0000);
        rounded((10 * bytes) as nat, 0x10_0000)
    }
}

/// A name reads with spaces for underscores and a capital at its start.
pub proof fn law_names_read_with_spaces_and_a_capital(name: Seq<char>, i: int)
    requires
        0 <= i < name.len(),
    ensures
        readable(name).len() == name.len(),
        name[i] == '_' ==> readable(name)[i] == ' ',
        name[i] != '_' && i > 0 ==> readable(name)[i] == name[i],
        i == 0 && 'a' <= name[0] <= 'z' ==> readable(name)[0] == (name[0] as nat - 32) as char,
        i == 0 && name[0] != '_' && !('a' <= name[0] <= 'z') ==> readable(name)[0] == name[0],
{
}

/// The label of a gauge is its name without the prefix; a unit at its end stands
/// behind it in brackets.
pub proof fn law_units_stand_in_brackets(prefix: Seq<char>, stem: Seq<char>)
    requires
        stem.len() > 0,
    ensures
        gauge_label(prefix + stem + "_seconds"@, prefix) == readable(stem) + " (seconds)"@,
        gauge_label(prefix + stem + "_bytes"@, prefix) == readable(stem) + " (bytes)"@,
        gauge_label(prefix + stem + "_ratio"@, prefix) == readable(stem) + " (ratio)"@,
{
    reveal_strlit("_");
    reveal_strlit("seconds");
    reveal_strlit("bytes");
    reveal_strlit("ratio");
    reveal_strlit("_seconds");
    reveal_strlit("_bytes");
    reveal_strlit("_ratio");
    reveal_strlit(" (");
    reveal_strlit(")");
    reveal_strlit(" (seconds)");
    reveal_strlit(" (bytes)");
    reveal_strlit(" (ratio)");
    assert("_"@ + "seconds"@ =~= "_seconds"@);
    assert("_"@ + "bytes"@ =~= "_bytes"@);
    assert("_"@ + "ratio"@ =~= "_ratio"@);
    lemma_without_prefix(prefix, stem + "_seconds"@);
    lemma_without_prefix(prefix, stem + "_bytes"@);
    lemma_without_prefix(prefix, stem + "_ratio"@);
    assert(prefix + stem + "_seconds"@ =~= prefix + (stem + "_seconds"@));
    assert(prefix + stem + "_bytes"@ =~= prefix + (stem + "_bytes"@));
    assert(prefix + stem + "_ratio"@ =~= prefix + (stem + "_ratio"@));
    lemma_ends(stem, "_seconds"@);
    lemma_ends(stem, "_bytes"@);
    lemma_ends(stem, "_ratio"@);
    let b = stem + "_bytes"@;
    let r = stem + "_ratio"@;
    assert(b.last() == 's' && r.last() == 'o');
    assert(b[b.len() - 2] == 'e');
    assert(!ends_with(b, "_seconds"@)) by {
        if ends_with(b, "_seconds"@) {
            let tail = b.skip(b.len() - 8);
            assert(tail[6] == b[b.len() - 2]);
            assert("_seconds"@[6] == 'd');
        }
    }
    assert(!ends_with(r, "_seconds"@)) by {
        if ends_with(r, "_seconds"@) {
            let tail = r.skip(r.len() - 8);
            assert(tail[7] == r[r.len() - 1]);
            assert("_seconds"@[7] == 's');
        }
    }
    assert(!ends_with(r, "_bytes"@)) by {
        if ends_with(r, "_bytes"@) {
            let tail = r.skip(r.len() - 6);
            assert(tail[5] == r[r.len() - 1]);
            assert("_bytes"@[5] == 's');
        }
    }
    assert(readable(stem) + " ("@ + "seconds"@ + ")"@ =~= readable(stem) + " (seconds)"@);
    assert(readable(stem) + " ("@ + "bytes"@ + ")"@ =~= readable(stem) + " (bytes)"@);
    assert(readable(stem) + " ("@ + "ratio"@ + ")"@ =~= readable(stem) + " (ratio)"@);
}

proof fn lemma_without_prefix(prefix: Seq<char>, rest: Seq<char>)
    ensures
        begins_with(prefix + rest, prefix),
        (prefix + rest).skip(prefix.len() as int) == rest,
{
    assert((prefix + rest).take(prefix.len() as int) =~= prefix);
    assert((prefix + rest).skip(prefix.len() as int) =~= rest);
}

proof fn lemma_ends(stem: Seq<char>, suffix: Seq<char>)
    ensures
        ends_with(stem + suffix, suffix),
        (stem + suffix).take(stem.len() as int) == stem,
{
    assert((stem + suffix).skip(stem.len() as int) =~= suffix);
    assert((stem + suffix).take(stem.len() as int) =~= stem);
}

} // verus!
