//! Text building blocks: strings seen as sequences of characters.

use vstd::prelude::*;

verus! {

/// `String::push` appends one character.
pub assume_specification[ String::push ](s: &mut String, c: char)
    ensures
        final(s)@ == old(s)@.push(c),
;

/// The decimal digit for a value below ten.
pub open spec fn digit(value: nat) -> char {
    (48 + value) as char
}

/// A natural number in decimal, without leading zeros.
pub open spec fn decimal(n: nat) -> Seq<char>
    decreases n,
{
    if n < 10 {
        seq![digit(n)]
    } else {
        decimal(n / 10).push(digit(n % 10))
    }
}

/// The characters of a string, as a vector that can be indexed.
pub fn chars_of(s: &str) -> (out: Vec<char>)
    ensures
        out@ == s@,
{
    let mut out: Vec<char> = Vec::new();
    for c in iter: s.chars()
        invariant
            iter.seq() == s@,
            out@ == s@.take(iter.index()),
    {
        out.push(c);
        assert(s@.take(iter.index() + 1) == s@.take(iter.index()).push(c));
    }
    assert(s@.take(s@.len() as int) == s@);
    out
}

/// The string holding exactly these characters.
pub fn string_of(chars: &[char]) -> (out: String)
    ensures
        out@ == chars@,
{
    let mut out = String::new();
    let mut i: usize = 0;
    while i < chars.len()
        invariant
            i <= chars.len(),
            out@ == chars@.take(i as int),
        decreases chars.len() - i,
    {
        out.push(chars[i]);
        assert(chars@.take(i + 1) == chars@.take(i as int).push(chars@[i as int]));
        i = i + 1;
    }
    assert(chars@.take(chars@.len() as int) == chars@);
    out
}

/// Appends `n` in decimal.
pub fn push_decimal(out: &mut String, n: u64)
    ensures
        final(out)@ == old(out)@ + decimal(n as nat),
    decreases n,
{
    if n >= 10 {
        push_decimal(out, n / 10);
    }
    let low: u8 = (n % 10) as u8;
    out.push((48 + low) as char);
    assert(out@ == old(out)@ + decimal(n as nat));
}

/// The decimal text of an integer.
pub open spec fn signed_decimal(n: int) -> Seq<char> {
    if n < 0 {
        "-"@ + decimal((-n) as nat)
    } else {
        decimal(n as nat)
    }
}

/// Writes an integer in decimal at the end of a string.
pub fn push_signed(out: &mut String, n: i64)
    ensures
        final(out)@ == old(out)@ + signed_decimal(n as int),
{
    if n >= 0 {
        push_decimal(out, n as u64);
        return;
    }
    out.append("-");
    let size: u64 = if n == i64::MIN {
        9_223_372_036_854_775_808
    } else {
        (-n) as u64
    };
    push_decimal(out, size);
    assert(out@ =~= old(out)@ + signed_decimal(n as int));
}

/// `str` equality compares the text.
pub assume_specification[ <str as PartialEq>::eq ](a: &str, b: &str) -> (same: bool)
    ensures
        same == (a@ == b@),
;

/// A string as `{:?}` writes it: quoted, with control characters escaped.
pub uninterp spec fn debug_text(s: Seq<char>) -> Seq<char>;

/// Calls `str`'s `Debug` formatting. Claims that what it writes depends on the
/// text alone.
#[verifier::external_body]
pub(crate) fn debug_quoted(s: &str) -> (out: String)
    ensures
        out@ == debug_text(s@),
{
    format!("{s:?}")
}

/// Whether two strings hold the same text.
pub fn same_text(a: &str, b: &str) -> (same: bool)
    ensures
        same == (a@ == b@),
{
    *a == *b
}

/// Strict order of texts: by the first character that differs, a proper prefix
/// first. It is the order of their UTF-8 bytes.
pub open spec fn text_before(a: Seq<char>, b: Seq<char>) -> bool
    decreases a.len(),
{
    if b.len() == 0 {
        false
    } else if a.len() == 0 {
        true
    } else if a[0] == b[0] {
        text_before(a.drop_first(), b.drop_first())
    } else {
        a[0] < b[0]
    }
}

pub proof fn lemma_text_before_irreflexive(a: Seq<char>)
    ensures
        !text_before(a, a),
    decreases a.len(),
{
    if a.len() > 0 {
        lemma_text_before_irreflexive(a.drop_first());
    }
}

pub proof fn lemma_text_before_total(a: Seq<char>, b: Seq<char>)
    ensures
        text_before(a, b) || text_before(b, a) || a == b,
    decreases a.len(),
{
    if a.len() > 0 && b.len() > 0 {
        if a[0] == b[0] {
            lemma_text_before_total(a.drop_first(), b.drop_first());
            if a.drop_first() == b.drop_first() {
                assert(a =~= seq![a[0]] + a.drop_first());
                assert(b =~= seq![b[0]] + b.drop_first());
            }
        }
    } else if a.len() == 0 && b.len() == 0 {
        assert(a =~= b);
    }
}

pub proof fn lemma_text_before_transitive(a: Seq<char>, b: Seq<char>, c: Seq<char>)
    requires
        text_before(a, b),
        text_before(b, c),
    ensures
        text_before(a, c),
    decreases a.len(),
{
    if a.len() > 0 && a[0] == b[0] && b[0] == c[0] {
        lemma_text_before_transitive(a.drop_first(), b.drop_first(), c.drop_first());
    }
}

/// Whether the first text comes strictly before the second.
pub fn precedes(a: &str, b: &str) -> (before: bool)
    ensures
        before == text_before(a@, b@),
{
    let x = chars_of(a);
    let y = chars_of(b);
    let mut i: usize = 0;
    assert(a@.skip(0) == a@);
    assert(b@.skip(0) == b@);
    while i < x.len() && i < y.len()
        invariant
            x@ == a@,
            y@ == b@,
            i <= x.len(),
            i <= y.len(),
            text_before(a@, b@) == text_before(a@.skip(i as int), b@.skip(i as int)),
        decreases x.len() - i,
    {
        assert(a@.skip(i as int).drop_first() == a@.skip(i + 1));
        assert(b@.skip(i as int).drop_first() == b@.skip(i + 1));
        if x[i] != y[i] {
            return x[i] < y[i];
        }
        i = i + 1;
    }
    i < y.len()
}

/// Whether `part` occurs somewhere in `whole`.
pub open spec fn occurs_in(part: Seq<char>, whole: Seq<char>) -> bool {
    exists|at: int|
        0 <= at <= whole.len() - part.len() && #[trigger] whole.subrange(at, at + part.len())
            == part
}

/// Whether `whole` starts with `prefix`.
pub open spec fn begins_with(whole: Seq<char>, prefix: Seq<char>) -> bool {
    prefix.len() <= whole.len() && whole.take(prefix.len() as int) == prefix
}

/// Whether the characters of `part` stand in `whole` from `at` on.
fn stands_at(whole: &Vec<char>, part: &Vec<char>, at: usize) -> (same: bool)
    requires
        at + part.len() <= whole.len(),
    ensures
        same == (whole@.subrange(at as int, at + part@.len()) == part@),
{
    let mut i: usize = 0;
    while i < part.len()
        invariant
            i <= part.len(),
            at + part.len() <= whole.len(),
            forall|j: int| 0 <= j < i ==> whole@[at + j] == part@[j],
        decreases part.len() - i,
    {
        if whole[at + i] != part[i] {
            assert(whole@.subrange(at as int, at + part@.len())[i as int] != part@[i as int]);
            return false;
        }
        i = i + 1;
    }
    assert(whole@.subrange(at as int, at + part@.len()) =~= part@);
    true
}

/// Whether `part` occurs somewhere in `whole`.
pub fn contains_text(whole: &str, part: &str) -> (found: bool)
    ensures
        found == occurs_in(part@, whole@),
{
    let w = chars_of(whole);
    let p = chars_of(part);
    if p.len() > w.len() {
        return false;
    }
    let last: usize = w.len() - p.len();
    let mut at: usize = 0;
    while at <= last
        invariant
            w@ == whole@,
            p@ == part@,
            at <= last + 1,
            last == w.len() - p.len(),
            last < usize::MAX || p.len() == 0,
            forall|i: int| 0 <= i < at ==> #[trigger] w@.subrange(i, i + p@.len()) != p@,
        decreases last + 1 - at,
    {
        if stands_at(&w, &p, at) {
            return true;
        }
        if at == last {
            assert(forall|i: int|
                0 <= i <= last ==> #[trigger] w@.subrange(i, i + p@.len()) != p@);
            return false;
        }
        at = at + 1;
    }
    false
}

/// Whether `whole` starts with `prefix`.
pub fn starts_with_text(whole: &str, prefix: &str) -> (starts: bool)
    ensures
        starts == begins_with(whole@, prefix@),
{
    let w = chars_of(whole);
    let p = chars_of(prefix);
    if p.len() > w.len() {
        return false;
    }
    assert(w@.subrange(0, p@.len() as int) == w@.take(p@.len() as int));
    stands_at(&w, &p, 0)
}

/// The text behind a prefix, where it starts with the prefix.
pub fn cut_prefix(whole: &str, prefix: &str) -> (rest: Option<String>)
    ensures
        match rest {
            Some(rest) => begins_with(whole@, prefix@) && rest@ == whole@.skip(prefix@.len() as int),
            None => !begins_with(whole@, prefix@),
        },
{
    let w = chars_of(whole);
    let p = chars_of(prefix);
    if p.len() > w.len() {
        return None;
    }
    assert(w@.subrange(0, p@.len() as int) == w@.take(p@.len() as int));
    if !stands_at(&w, &p, 0) {
        return None;
    }
    assert(w@.skip(p@.len() as int) =~= w@.subrange(p@.len() as int, w@.len() as int));
    Some(string_of(vstd::slice::slice_subrange(w.as_slice(), p.len(), w.len())))
}

/// Whether `whole` ends with `suffix`.
pub open spec fn ends_with(whole: Seq<char>, suffix: Seq<char>) -> bool {
    suffix.len() <= whole.len() && whole.skip(whole.len() - suffix.len()) == suffix
}

/// The text before a suffix, where it ends with the suffix.
pub fn cut_suffix(whole: &str, suffix: &str) -> (rest: Option<String>)
    ensures
        match rest {
            Some(rest) => ends_with(whole@, suffix@) && rest@ == whole@.take(
                whole@.len() - suffix@.len(),
            ),
            None => !ends_with(whole@, suffix@),
        },
{
    let w = chars_of(whole);
    let p = chars_of(suffix);
    if p.len() > w.len() {
        return None;
    }
    let keep: usize = w.len() - p.len();
    assert(w@.subrange(keep as int, keep + p@.len()) =~= w@.skip(keep as int));
    if !stands_at(&w, &p, keep) {
        return None;
    }
    assert(w@.take(keep as int) =~= w@.subrange(0, keep as int));
    Some(string_of(vstd::slice::slice_subrange(w.as_slice(), 0, keep)))
}

/// The first place of a character, from `from` on.
pub open spec fn first_at(text: Seq<char>, c: char, from: int) -> Option<int>
    decreases text.len() - from,
{
    if from >= text.len() {
        None
    } else if text[from] == c {
        Some(from)
    } else {
        first_at(text, c, from + 1)
    }
}

/// A place is the first one of a character if none before it holds it.
pub proof fn lemma_first_at(text: Seq<char>, c: char, from: int, at: int)
    requires
        0 <= from <= at < text.len(),
        text[at] == c,
        forall|i: int| from <= i < at ==> text[i] != c,
    ensures
        first_at(text, c, from) == Some(at),
    decreases at - from,
{
    if from < at {
        lemma_first_at(text, c, from + 1, at);
    }
}

/// The first place of a character holds it, and lies in the text.
pub proof fn lemma_first_at_holds(text: Seq<char>, c: char, from: int)
    requires
        0 <= from,
    ensures
        first_at(text, c, from) matches Some(at) ==> (from <= at < text.len() && text[at] == c),
    decreases text.len() - from,
{
    if from < text.len() && text[from] != c {
        lemma_first_at_holds(text, c, from + 1);
    }
}

/// The first place of a character in a text, from `from` on.
pub fn find_char(text: &Vec<char>, c: char, from: usize) -> (place: Option<usize>)
    requires
        from <= text.len(),
    ensures
        match place {
            Some(at) => from <= at < text@.len() && text@[at as int] == c && first_at(
                text@,
                c,
                from as int,
            ) == Some(at as int),
            None => first_at(text@, c, from as int) is None,
        },
{
    let mut i: usize = from;
    while i < text.len()
        invariant
            from <= i <= text.len(),
            first_at(text@, c, from as int) == first_at(text@, c, i as int),
        decreases text.len() - i,
    {
        if text[i] == c {
            return Some(i);
        }
        i = i + 1;
    }
    None
}

/// The texts before and behind the first place of a character.
pub open spec fn split_first(text: Seq<char>, c: char) -> Option<(Seq<char>, Seq<char>)> {
    match first_at(text, c, 0) {
        Some(at) => Some((text.take(at), text.skip(at + 1))),
        None => None,
    }
}

/// The texts before and behind the first place of a character, where there is
/// one.
pub fn split_once_at(text: &str, c: char) -> (parts: Option<(String, String)>)
    ensures
        match parts {
            Some((head, tail)) => split_first(text@, c) == Some((head@, tail@)),
            None => split_first(text@, c) is None,
        },
{
    let chars = chars_of(text);
    match find_char(&chars, c, 0) {
        Some(at) => {
            let slice = chars.as_slice();
            let head = string_of(vstd::slice::slice_subrange(slice, 0, at));
            let tail = string_of(vstd::slice::slice_subrange(slice, at + 1, chars.len()));
            assert(head@ =~= text@.take(at as int));
            assert(tail@ =~= text@.skip(at + 1));
            Some((head, tail))
        },
        None => None,
    }
}

/// The pieces of a text between the places of a character.
pub open spec fn pieces(text: Seq<char>, c: char) -> Seq<Seq<char>>
    decreases text.len(),
{
    match first_at(text, c, 0) {
        Some(at) => if 0 <= at < text.len() {
            seq![text.take(at)] + pieces(text.skip(at + 1), c)
        } else {
            seq![text]
        },
        None => seq![text],
    }
}

/// The pieces of a text between the places of a character.
pub fn split_at_each(text: &str, c: char) -> (parts: Vec<String>)
    ensures
        texts(parts@) == pieces(text@, c),
{
    let chars = chars_of(text);
    let mut parts: Vec<String> = Vec::new();
    let mut from: usize = 0;
    assert(chars@.skip(0) =~= chars@);
    assert(texts(parts@) + pieces(chars@.skip(0), c) =~= pieces(text@, c));
    loop
        invariant
            from <= chars.len(),
            chars@ == text@,
            texts(parts@) + pieces(chars@.skip(from as int), c) == pieces(text@, c),
        decreases chars.len() - from,
    {
        let ghost rest = chars@.skip(from as int);
        let ghost before = texts(parts@);
        let place = find_char(&chars, c, from);
        proof {
            lemma_first_at_skip(chars@, c, from as int);
        }
        match place {
            Some(at) => {
                let part = string_of(vstd::slice::slice_subrange(chars.as_slice(), from, at));
                parts.push(part);
                proof {
                    assert(part@ =~= rest.take(at - from));
                    assert(rest.skip(at - from + 1) =~= chars@.skip(at + 1));
                    assert(texts(parts@) =~= before.push(part@));
                    assert(before.push(part@) + pieces(chars@.skip(at + 1), c) =~= before + (
                    seq![part@] + pieces(chars@.skip(at + 1), c)));
                }
                from = at + 1;
            },
            None => {
                let part = string_of(
                    vstd::slice::slice_subrange(chars.as_slice(), from, chars.len()),
                );
                parts.push(part);
                proof {
                    assert(part@ =~= rest);
                    assert(texts(parts@) =~= before.push(part@));
                    assert(before.push(part@) =~= before + seq![rest]);
                }
                return parts;
            },
        }
    }
}

proof fn lemma_first_at_skip(text: Seq<char>, c: char, from: int)
    requires
        0 <= from <= text.len(),
    ensures
        first_at(text.skip(from), c, 0) == (match first_at(text, c, from) {
            Some(at) => Some(at - from),
            None => None,
        }),
{
    lemma_first_at_shift(text, c, from, 0);
}

proof fn lemma_first_at_shift(text: Seq<char>, c: char, from: int, i: int)
    requires
        0 <= from <= text.len(),
        0 <= i <= text.len() - from,
    ensures
        first_at(text.skip(from), c, i) == (match first_at(text, c, from + i) {
            Some(at) => Some(at - from),
            None => None,
        }),
    decreases text.len() - from - i,
{
    if i < text.len() - from && text[from + i] != c {
        lemma_first_at_shift(text, c, from, i + 1);
    }
}

/// The characters with the Unicode property `White_Space`.
pub open spec fn is_space(c: char) -> bool {
    ||| '\u{9}' <= c <= '\u{d}'
    ||| c == ' '
    ||| c == '\u{85}'
    ||| c == '\u{a0}'
    ||| c == '\u{1680}'
    ||| '\u{2000}' <= c <= '\u{200a}'
    ||| c == '\u{2028}'
    ||| c == '\u{2029}'
    ||| c == '\u{202f}'
    ||| c == '\u{205f}'
    ||| c == '\u{3000}'
}

/// Whether a character is white space.
pub fn space(c: char) -> (yes: bool)
    ensures
        yes == is_space(c),
{
    ('\u{9}' <= c && c <= '\u{d}') || c == ' ' || c == '\u{85}' || c == '\u{a0}' || c == '\u{1680}'
        || ('\u{2000}' <= c && c <= '\u{200a}') || c == '\u{2028}' || c == '\u{2029}' || c
        == '\u{202f}' || c == '\u{205f}' || c == '\u{3000}'
}

/// A text without the white space around it.
pub open spec fn trimmed(text: Seq<char>) -> Seq<char>
    decreases text.len(),
{
    if text.len() > 0 && is_space(text[0]) {
        trimmed(text.drop_first())
    } else if text.len() > 0 && is_space(text.last()) {
        trimmed(text.drop_last())
    } else {
        text
    }
}

/// The text without the white space around it.
pub fn trim_text(text: &str) -> (out: String)
    ensures
        out@ == trimmed(text@),
{
    let chars = chars_of(text);
    let mut from: usize = 0;
    let mut to: usize = chars.len();
    assert(chars@.subrange(0, to as int) =~= chars@);
    while from < to && space(chars[from])
        invariant
            from <= to,
            to == chars.len(),
            trimmed(chars@.subrange(from as int, to as int)) == trimmed(chars@),
        decreases to - from,
    {
        assert(chars@.subrange(from as int, to as int).drop_first() =~= chars@.subrange(
            from + 1,
            to as int,
        ));
        from = from + 1;
    }
    while to > from && space(chars[to - 1])
        invariant
            from <= to <= chars.len(),
            from < to ==> !is_space(chars@[from as int]),
            trimmed(chars@.subrange(from as int, to as int)) == trimmed(chars@),
        decreases to - from,
    {
        assert(chars@.subrange(from as int, to as int).drop_last() =~= chars@.subrange(
            from as int,
            to - 1,
        ));
        to = to - 1;
    }
    string_of(vstd::slice::slice_subrange(chars.as_slice(), from, to))
}

/// A text without the white space at its end.
pub open spec fn trimmed_back(text: Seq<char>) -> Seq<char>
    decreases text.len(),
{
    if text.len() > 0 && is_space(text.last()) {
        trimmed_back(text.drop_last())
    } else {
        text
    }
}

/// The text without the white space at its end.
pub fn trim_back(text: &str) -> (out: String)
    ensures
        out@ == trimmed_back(text@),
{
    let chars = chars_of(text);
    let mut to: usize = chars.len();
    assert(chars@.take(to as int) =~= chars@);
    while to > 0 && space(chars[to - 1])
        invariant
            to <= chars.len(),
            trimmed_back(chars@.take(to as int)) == trimmed_back(chars@),
        decreases to,
    {
        assert(chars@.take(to as int).drop_last() =~= chars@.take(to - 1));
        to = to - 1;
    }
    assert(chars@.take(to as int) =~= chars@.subrange(0, to as int));
    string_of(vstd::slice::slice_subrange(chars.as_slice(), 0, to))
}

/// The last place of white space in the first `n` characters.
pub open spec fn last_space(text: Seq<char>, n: int) -> Option<int>
    decreases n,
{
    if n <= 0 {
        None
    } else if is_space(text[n - 1]) {
        Some(n - 1)
    } else {
        last_space(text, n - 1)
    }
}

/// The last place of white space.
pub fn find_last_space(text: &Vec<char>) -> (place: Option<usize>)
    ensures
        match place {
            Some(at) => at < text@.len() && last_space(text@, text@.len() as int) == Some(
                at as int,
            ),
            None => last_space(text@, text@.len() as int) is None,
        },
{
    let mut n: usize = text.len();
    while n > 0
        invariant
            n <= text.len(),
            last_space(text@, text@.len() as int) == last_space(text@, n as int),
        decreases n,
    {
        if space(text[n - 1]) {
            return Some(n - 1);
        }
        n = n - 1;
    }
    None
}

/// A text without its trailing run of one character.
pub open spec fn trimmed_end(text: Seq<char>, c: char) -> Seq<char>
    decreases text.len(),
{
    if text.len() > 0 && text.last() == c {
        trimmed_end(text.drop_last(), c)
    } else {
        text
    }
}

/// The text without its trailing run of one character.
pub fn trim_end_of(text: &str, c: char) -> (out: String)
    ensures
        out@ == trimmed_end(text@, c),
{
    let mut chars = chars_of(text);
    while chars.len() > 0 && chars[chars.len() - 1] == c
        invariant
            trimmed_end(chars@, c) == trimmed_end(text@, c),
        decreases chars.len(),
    {
        chars.pop();
    }
    string_of(chars.as_slice())
}

/// Names in strictly increasing order.
pub open spec fn ascending(names: Seq<Seq<char>>) -> bool {
    forall|i: int, j: int|
        0 <= i < j < names.len() ==> text_before(#[trigger] names[i], #[trigger] names[j])
}

/// Where a name belongs in an ascending list that does not hold it.
pub fn ascending_place(names: &Vec<String>, name: &str) -> (place: usize)
    requires
        ascending(texts(names@)),
        !texts(names@).contains(name@),
    ensures
        place <= names@.len(),
        ascending(texts(names@).insert(place as int, name@)),
{
    let mut place: usize = 0;
    while place < names.len() && precedes(names[place].as_str(), name)
        invariant
            place <= names.len(),
            forall|i: int| 0 <= i < place ==> text_before((#[trigger] names@[i])@, name@),
        decreases names.len() - place,
    {
        place = place + 1;
    }
    proof {
        let list = texts(names@);
        let longer = list.insert(place as int, name@);
        assert forall|i: int| place <= i < list.len() implies text_before(name@, #[trigger] list[i]) by {
            assert(list[place as int] == names@[place as int]@);
            assert(list.contains(list[place as int]));
            lemma_text_before_total(name@, list[place as int]);
            if i > place {
                lemma_text_before_transitive(name@, list[place as int], list[i]);
            }
        }
        assert forall|i: int, j: int| 0 <= i < j < longer.len() implies text_before(
            #[trigger] longer[i],
            #[trigger] longer[j],
        ) by {
            if i < place {
                assert(longer[i] == list[i]);
                assert(list[i] == names@[i]@);
                if j < place {
                    assert(longer[j] == list[j]);
                } else if j > place {
                    assert(longer[j] == list[j - 1]);
                }
            } else {
                assert(longer[j] == list[j - 1]);
                if i > place {
                    assert(longer[i] == list[i - 1]);
                }
            }
        }
    }
    place
}

/// The texts of a list of strings.
pub open spec fn texts(list: Seq<String>) -> Seq<Seq<char>> {
    list.map_values(|s: String| s@)
}

/// Whether a list holds a text.
pub fn list_holds(list: &Vec<String>, text: &str) -> (held: bool)
    ensures
        held == texts(list@).contains(text@),
{
    let mut i: usize = 0;
    while i < list.len()
        invariant
            i <= list.len(),
            forall|j: int| 0 <= j < i ==> (#[trigger] list@[j])@ != text@,
        decreases list.len() - i,
    {
        if same_text(list[i].as_str(), text) {
            assert(texts(list@)[i as int] == text@);
            return true;
        }
        i = i + 1;
    }
    assert forall|j: int| 0 <= j < texts(list@).len() implies texts(list@)[j] != text@ by {
        assert(list@[j]@ != text@);
    }
    false
}

/// The digits of a number are those of its tenth with its last one behind them.
pub proof fn law_digits_follow_one_another(n: nat, last: nat)
    requires
        last < 10,
    ensures
        decimal(last) == seq![('0' as nat + last) as char],
        n > 0 ==> decimal(10 * n + last) == decimal(n).push(('0' as nat + last) as char),
        n > 0 ==> signed_decimal(-(n as int)) == seq!['-'] + decimal(n),
        signed_decimal(n as int) == decimal(n),
{
    reveal_strlit("-");
    assert("-"@ =~= seq!['-']);
    assert((10 * n + last) / 10 == n && (10 * n + last) % 10 == last);
}

/// Texts are ordered by the first character in which they differ; where there is
/// none, the shorter one is first.
pub proof fn law_texts_are_ordered_by_their_first_difference(a: Seq<char>, b: Seq<char>, k: int)
    requires
        0 <= k <= a.len(),
        k <= b.len(),
        a.take(k) == b.take(k),
        k < a.len() && k < b.len() ==> a[k] != b[k],
    ensures
        text_before(a, b) <==> (k < b.len() && (k < a.len() ==> a[k] < b[k])),
    decreases k,
{
    if k > 0 {
        assert(a.take(k)[0] == a[0] && b.take(k)[0] == b[0]);
        assert(k < a.len() ==> a.drop_first()[k - 1] == a[k]);
        assert(k < b.len() ==> b.drop_first()[k - 1] == b[k]);
        assert(a.drop_first().take(k - 1) =~= a.take(k).skip(1));
        assert(b.drop_first().take(k - 1) =~= b.take(k).skip(1));
        law_texts_are_ordered_by_their_first_difference(a.drop_first(), b.drop_first(), k - 1);
    }
}

/// A text is split at the first of the separators, and only there.
pub proof fn law_texts_split_at_the_first_separator(text: Seq<char>, c: char)
    ensures
        match split_first(text, c) {
            Some((before, after)) => text == before.push(c) + after && !before.contains(c),
            None => !text.contains(c),
        },
{
    lemma_first_at_is_first(text, c, 0);
    if let Some(at) = first_at(text, c, 0) {
        assert(text =~= text.take(at).push(c) + text.skip(at + 1));
    }
}

proof fn lemma_first_at_is_first(text: Seq<char>, c: char, from: int)
    requires
        0 <= from,
    ensures
        match first_at(text, c, from) {
            Some(at) => {
                &&& from <= at < text.len()
                &&& text[at] == c
                &&& forall|i: int| from <= i < at ==> #[trigger] text[i] != c
            },
            None => forall|i: int| from <= i < text.len() ==> #[trigger] text[i] != c,
        },
    decreases text.len() - from,
{
    if from < text.len() && text[from] != c {
        lemma_first_at_is_first(text, c, from + 1);
    }
}

/// Pieces with a separator between each two.
pub open spec fn rejoined(parts: Seq<Seq<char>>, c: char) -> Seq<char>
    decreases parts.len(),
{
    if parts.len() == 0 {
        Seq::empty()
    } else if parts.len() == 1 {
        parts[0]
    } else {
        parts[0].push(c) + rejoined(parts.drop_first(), c)
    }
}

/// The pieces of a text hold no separator, and with separators between them they
/// are the text again.
pub proof fn law_pieces_make_up_the_text(text: Seq<char>, c: char)
    ensures
        pieces(text, c).len() > 0,
        rejoined(pieces(text, c), c) == text,
        forall|i: int| 0 <= i < pieces(text, c).len() ==> !(#[trigger] pieces(text, c)[i]).contains(c),
    decreases text.len(),
{
    lemma_first_at_is_first(text, c, 0);
    if let Some(at) = first_at(text, c, 0) {
        let rest = pieces(text.skip(at + 1), c);
        law_pieces_make_up_the_text(text.skip(at + 1), c);
        let all = pieces(text, c);
        assert(all.drop_first() =~= rest);
        assert(text =~= text.take(at).push(c) + text.skip(at + 1));
        assert forall|i: int| 0 <= i < all.len() implies !(#[trigger] all[i]).contains(c) by {
            if i > 0 {
                assert(all[i] == rest[i - 1]);
            }
        }
    }
}

/// White space is what Unicode calls so.
pub proof fn law_white_space(c: char)
    ensures
        is_space(c) <==> {
            let code = c as nat;
            9 <= code <= 13 || code == 32 || code == 0x85 || code == 0xa0 || code == 0x1680 || 0x2000
                <= code <= 0x200a || code == 0x2028 || code == 0x2029 || code == 0x202f || code
                == 0x205f || code == 0x3000
        },
{
}

/// Whether everything outside a range of a text is white space.
pub open spec fn space_around(text: Seq<char>, a: int, b: int) -> bool {
    forall|i: int| 0 <= i < a || b <= i < text.len() ==> is_space(#[trigger] text[i])
}

proof fn lemma_trimmed_range(text: Seq<char>) -> (range: (int, int))
    ensures
        0 <= range.0 <= range.1 <= text.len(),
        text.subrange(range.0, range.1) == trimmed(text),
        space_around(text, range.0, range.1),
    decreases text.len(),
{
    if text.len() > 0 && is_space(text[0]) {
        let inner = text.drop_first();
        let (a, b) = lemma_trimmed_range(inner);
        assert(text.subrange(a + 1, b + 1) =~= inner.subrange(a, b));
        assert forall|i: int| 0 <= i < a + 1 || b + 1 <= i < text.len() implies is_space(
            #[trigger] text[i],
        ) by {
            if i > 0 {
                assert(inner[i - 1] == text[i]);
            }
        }
        (a + 1, b + 1)
    } else if text.len() > 0 && is_space(text.last()) {
        let inner = text.drop_last();
        let (a, b) = lemma_trimmed_range(inner);
        assert(text.subrange(a, b) =~= inner.subrange(a, b));
        assert forall|i: int| 0 <= i < a || b <= i < text.len() implies is_space(
            #[trigger] text[i],
        ) by {
            if i < inner.len() {
                assert(inner[i] == text[i]);
            }
        }
        (a, b)
    } else {
        assert(text.subrange(0, text.len() as int) =~= text);
        (0, text.len() as int)
    }
}

proof fn lemma_trimmed_ends(text: Seq<char>)
    ensures
        trimmed(text).len() > 0 ==> !is_space(trimmed(text)[0]) && !is_space(trimmed(text).last()),
    decreases text.len(),
{
    if text.len() > 0 && is_space(text[0]) {
        lemma_trimmed_ends(text.drop_first());
    } else if text.len() > 0 && is_space(text.last()) {
        lemma_trimmed_ends(text.drop_last());
    }
}

/// Trimming takes the white space off both ends, all of it and nothing else.
pub proof fn law_trimming_takes_the_space_off_both_ends(text: Seq<char>) -> (range: (int, int))
    ensures
        0 <= range.0 <= range.1 <= text.len(),
        trimmed(text) == text.subrange(range.0, range.1),
        forall|i: int|
            0 <= i < range.0 || range.1 <= i < text.len() ==> is_space(#[trigger] text[i]),
        trimmed(text).len() > 0 ==> !is_space(trimmed(text)[0]) && !is_space(trimmed(text).last()),
{
    let range = lemma_trimmed_range(text);
    lemma_trimmed_ends(text);
    assert(space_around(text, range.0, range.1));
    range
}

/// Trimming at the end takes off the white space there, all of it and nothing else.
pub proof fn law_trimming_takes_the_space_off_the_end(text: Seq<char>)
    ensures
        ({
            let left = trimmed_back(text);
            &&& left.len() <= text.len()
            &&& left == text.take(left.len() as int)
            &&& left.len() > 0 ==> !is_space(left.last())
            &&& forall|i: int| left.len() <= i < text.len() ==> is_space(#[trigger] text[i])
        }),
    decreases text.len(),
{
    if text.len() > 0 && is_space(text.last()) {
        let inner = text.drop_last();
        law_trimming_takes_the_space_off_the_end(inner);
        let left = trimmed_back(text);
        assert(inner.take(left.len() as int) =~= text.take(left.len() as int));
        assert forall|i: int| left.len() <= i < text.len() implies is_space(#[trigger] text[i]) by {
            if i < inner.len() {
                assert(inner[i] == text[i]);
            }
        }
    } else {
        assert(text.take(text.len() as int) =~= text);
    }
}

/// Trimming a character at the end takes off all of it there and nothing else.
pub proof fn law_trimming_takes_the_character_off_the_end(text: Seq<char>, c: char)
    ensures
        ({
            let left = trimmed_end(text, c);
            &&& left.len() <= text.len()
            &&& left == text.take(left.len() as int)
            &&& left.len() > 0 ==> left.last() != c
            &&& forall|i: int| left.len() <= i < text.len() ==> #[trigger] text[i] == c
        }),
    decreases text.len(),
{
    if text.len() > 0 && text.last() == c {
        let inner = text.drop_last();
        law_trimming_takes_the_character_off_the_end(inner, c);
        let left = trimmed_end(text, c);
        assert(inner.take(left.len() as int) =~= text.take(left.len() as int));
        assert forall|i: int| left.len() <= i < text.len() implies #[trigger] text[i] == c by {
            if i < inner.len() {
                assert(inner[i] == text[i]);
            }
        }
    } else {
        assert(text.take(text.len() as int) =~= text);
    }
}

/// The last white space of a text has none behind it.
pub proof fn law_the_last_space_is_last(text: Seq<char>, n: int)
    requires
        0 <= n <= text.len(),
    ensures
        match last_space(text, n) {
            Some(at) => {
                &&& 0 <= at < n
                &&& is_space(text[at])
                &&& forall|i: int| at < i < n ==> !is_space(#[trigger] text[i])
            },
            None => forall|i: int| 0 <= i < n ==> !is_space(#[trigger] text[i]),
        },
    decreases n,
{
    if n > 0 && !is_space(text[n - 1]) {
        law_the_last_space_is_last(text, n - 1);
    }
}

} // verus!
