//! Choosing the locale that formats local times in plain output: the first
//! system locale whose name `chrono` knows, after normalizing the common
//! spellings, or `en_US`.
use vstd::prelude::*;
use vstd::string::*;

use std::fmt::Write;

use crate::text::{chars_of, push_char};
use crate::timestamp::{Timestamp, MAX_LOCAL_NANOS, MIN_LOCAL_NANOS, NANOS_PER_SECOND};

verus! {

/// Whether `chrono::Locale::try_from` accepts the name; its table of names
/// is fixed, so the answer depends on the name alone.
pub uninterp spec fn chrono_knows_locale(name: Seq<char>) -> bool;

/// Asks `chrono::Locale::try_from` whether it knows the locale `name`. The
/// contract names the answer `chrono_knows_locale`.
#[verifier::external_body]
fn knows_locale(name: &str) -> (known: bool)
    ensures
        known == chrono_knows_locale(name@),
{
    chrono::Locale::try_from(name).is_ok()
}

/// Unicode white space, which `str::trim` removes.
pub open spec fn is_white_space(c: char) -> bool {
    ||| '\t' <= c <= '\r'
    ||| c == ' '
    ||| c == '\u{85}'
    ||| c == '\u{a0}'
    ||| c == '\u{1680}'
    ||| '\u{2000}' <= c <= '\u{200a}'
    ||| c == '\u{2028}'
    ||| c == '\u{2029}'
    ||| c == '\u{202f}'
    ||| c == '\u{205f}'
    ||| c == '\u{3000}'
}

pub open spec fn trim_front(s: Seq<char>) -> Seq<char>
    decreases s.len(),
{
    if s.len() > 0 && is_white_space(s[0]) {
        trim_front(s.drop_first())
    } else {
        s
    }
}

pub open spec fn trim_back(s: Seq<char>) -> Seq<char>
    decreases s.len(),
{
    if s.len() > 0 && is_white_space(s.last()) {
        trim_back(s.drop_last())
    } else {
        s
    }
}

/// `s` without leading and trailing white space.
pub open spec fn trimmed(s: Seq<char>) -> Seq<char> {
    trim_back(trim_front(s))
}

pub open spec fn ascii_lower(c: char) -> char {
    if 'A' <= c <= 'Z' {
        ((c as u32) + 32) as char
    } else {
        c
    }
}

/// Equal but for the case of ASCII letters.
pub open spec fn same_ignoring_case(a: Seq<char>, b: Seq<char>) -> bool {
    a.len() == b.len() && forall|i: int| 0 <= i < a.len() ==> ascii_lower(#[trigger] a[i]) == ascii_lower(b[i])
}

/// The text before the first `separator`, or all of it.
pub open spec fn before_first(s: Seq<char>, separator: char) -> Seq<char>
    decreases s.len(),
{
    if s.len() == 0 {
        s
    } else if s[0] == separator {
        Seq::empty()
    } else {
        seq![s[0]] + before_first(s.drop_first(), separator)
    }
}

/// The text after the first `separator`, if there is one.
pub open spec fn after_first(s: Seq<char>, separator: char) -> Option<Seq<char>>
    decreases s.len(),
{
    if s.len() == 0 {
        None
    } else if s[0] == separator {
        Some(s.drop_first())
    } else {
        after_first(s.drop_first(), separator)
    }
}

/// `-` and `@` read as `_`.
pub open spec fn underscored(s: Seq<char>) -> Seq<char> {
    Seq::new(s.len(), |i: int| if s[i] == '-' || s[i] == '@' { '_' } else { s[i] })
}

/// The `language_territory` prefix of a normalized name, when it has one.
pub open spec fn language_territory(normalized: Seq<char>) -> Option<Seq<char>> {
    match after_first(normalized, '_') {
        Some(rest) => Some(before_first(normalized, '_') + seq!['_'] + before_first(rest, '_')),
        None => None,
    }
}

/// The `chrono` locale name that a system locale such as `de_DE.UTF-8`,
/// `en-US` or `C` stands for, if `chrono` knows one.
pub open spec fn locale_name(locale: Seq<char>) -> Option<Seq<char>> {
    let name = trimmed(locale);
    if same_ignoring_case(name, seq!['C']) || same_ignoring_case(name, seq!['P', 'O', 'S', 'I', 'X']) {
        Some(seq!['P', 'O', 'S', 'I', 'X'])
    } else {
        let normalized = underscored(before_first(name, '.'));
        if chrono_knows_locale(normalized) {
            Some(normalized)
        } else {
            match language_territory(normalized) {
                Some(candidate) => if chrono_knows_locale(candidate) {
                    Some(candidate)
                } else {
                    None
                },
                None => None,
            }
        }
    }
}

fn white_space(c: char) -> (yes: bool)
    ensures
        yes == is_white_space(c),
{
    ('\t' <= c && c <= '\r') || c == ' ' || c == '\u{85}' || c == '\u{a0}' || c == '\u{1680}' || (
    '\u{2000}' <= c && c <= '\u{200a}') || c == '\u{2028}' || c == '\u{2029}' || c == '\u{202f}'
        || c == '\u{205f}' || c == '\u{3000}'
}

fn trim_chars(s: &Vec<char>) -> (t: Vec<char>)
    ensures
        t@ == trimmed(s@),
{
    let n = s.len();
    let mut start: usize = 0;
    assert(s@.skip(0) =~= s@);
    while start < n && white_space(s[start])
        invariant
            n == s@.len(),
            start <= n,
            trim_front(s@) == trim_front(s@.skip(start as int)),
        decreases n - start,
    {
        assert(s@.skip(start as int).drop_first() =~= s@.skip(start + 1));
        start = start + 1;
    }
    let ghost front = s@.skip(start as int);
    assert(trim_front(s@) == front);
    let mut end: usize = n;
    assert(front.take(front.len() as int) =~= front);
    while end > start && white_space(s[end - 1])
        invariant
            start <= end <= n,
            n == s@.len(),
            front == s@.skip(start as int),
            trim_back(front) == trim_back(front.take(end - start)),
        decreases end - start,
    {
        assert(front.take(end - start).drop_last() =~= front.take(end - start - 1));
        assert(front.take(end - start).last() == s@[end - 1]);
        end = end - 1;
    }
    let mut t: Vec<char> = Vec::new();
    let mut i: usize = start;
    while i < end
        invariant
            start <= i <= end <= n,
            n == s@.len(),
            t@ =~= s@.subrange(start as int, i as int),
        decreases end - i,
    {
        t.push(s[i]);
        i = i + 1;
    }
    proof {
        assert(t@ =~= front.take(end - start));
        if end > start {
            assert(!is_white_space(front.take(end - start).last()));
        }
    }
    t
}

fn lower(c: char) -> (l: char)
    ensures
        l == ascii_lower(c),
{
    if 'A' <= c && c <= 'Z' {
        ((c as u8) + 32) as char
    } else {
        c
    }
}

fn same_ignoring_case_chars(a: &Vec<char>, b: &Vec<char>) -> (same: bool)
    ensures
        same == same_ignoring_case(a@, b@),
{
    if a.len() != b.len() {
        return false;
    }
    let mut i: usize = 0;
    while i < a.len()
        invariant
            a@.len() == b@.len(),
            i <= a@.len(),
            forall|k: int| 0 <= k < i ==> ascii_lower(#[trigger] a@[k]) == ascii_lower(b@[k]),
        decreases a@.len() - i,
    {
        if lower(a[i]) != lower(b[i]) {
            return false;
        }
        i = i + 1;
    }
    true
}

proof fn lemma_before_first_prefix(s: Seq<char>, separator: char, i: int)
    requires
        0 <= i <= s.len(),
        forall|k: int| 0 <= k < i ==> s[k] != separator,
    ensures
        before_first(s, separator) == s.take(i) + before_first(s.skip(i), separator),
    decreases i,
{
    if i > 0 {
        lemma_before_first_prefix(s.drop_first(), separator, i - 1);
        assert(s.drop_first().take(i - 1) =~= s.take(i).drop_first());
        assert(s.drop_first().skip(i - 1) =~= s.skip(i));
        assert(s.take(i) =~= seq![s[0]] + s.take(i).drop_first());
    } else {
        assert(s.skip(0) =~= s);
    }
}

proof fn lemma_after_first_prefix(s: Seq<char>, separator: char, i: int)
    requires
        0 <= i <= s.len(),
        forall|k: int| 0 <= k < i ==> s[k] != separator,
    ensures
        after_first(s, separator) == after_first(s.skip(i), separator),
    decreases i,
{
    if i > 0 {
        lemma_after_first_prefix(s.drop_first(), separator, i - 1);
        assert(s.drop_first().skip(i - 1) =~= s.skip(i));
    } else {
        assert(s.skip(0) =~= s);
    }
}

/// The text before the first `separator` and, when there is one, the text
/// after it.
fn split_first(s: &Vec<char>, separator: char) -> (parts: (Vec<char>, Option<Vec<char>>))
    ensures
        parts.0@ == before_first(s@, separator),
        match parts.1 {
            Some(rest) => after_first(s@, separator) == Some(rest@),
            None => after_first(s@, separator) is None,
        },
{
    let mut head: Vec<char> = Vec::new();
    let mut i: usize = 0;
    while i < s.len() && s[i] != separator
        invariant
            i <= s@.len(),
            head@ =~= s@.take(i as int),
            forall|k: int| 0 <= k < i ==> s@[k] != separator,
        decreases s@.len() - i,
    {
        head.push(s[i]);
        i = i + 1;
    }
    proof {
        lemma_before_first_prefix(s@, separator, i as int);
        lemma_after_first_prefix(s@, separator, i as int);
        if i < s@.len() {
            assert(s@.skip(i as int)[0] == separator);
            assert(before_first(s@.skip(i as int), separator) =~= Seq::<char>::empty());
        } else {
            assert(s@.skip(i as int) =~= Seq::<char>::empty());
        }
        assert(head@ =~= s@.take(i as int) + before_first(s@.skip(i as int), separator));
    }
    if i < s.len() {
        let mut rest: Vec<char> = Vec::new();
        let mut k: usize = i + 1;
        while k < s.len()
            invariant
                i < k <= s@.len(),
                rest@ =~= s@.subrange(i + 1, k as int),
            decreases s@.len() - k,
        {
            rest.push(s[k]);
            k = k + 1;
        }
        assert(rest@ =~= s@.skip(i as int).drop_first());
        (head, Some(rest))
    } else {
        (head, None)
    }
}

fn string_of(chars: &Vec<char>) -> (s: String)
    ensures
        s@ == chars@,
{
    let mut s = String::new();
    let mut i: usize = 0;
    while i < chars.len()
        invariant
            i <= chars@.len(),
            s@ =~= chars@.take(i as int),
        decreases chars@.len() - i,
    {
        push_char(&mut s, chars[i]);
        i = i + 1;
    }
    s
}

/// The `chrono` locale name that a system locale stands for: `POSIX` for
/// `C` and `POSIX`, else the name before any `.` with `-` and `@` read as
/// `_`, else its `language_territory` prefix, whichever `chrono` knows.
pub fn parse_locale(locale: &str) -> (name: Option<String>)
    ensures
        match name {
            Some(n) => locale_name(locale@) == Some(n@),
            None => locale_name(locale@) is None,
        },
{
    let chars = chars_of(locale);
    let name = trim_chars(&chars);
    let mut c: Vec<char> = Vec::new();
    c.push('C');
    let mut posix: Vec<char> = Vec::new();
    posix.push('P');
    posix.push('O');
    posix.push('S');
    posix.push('I');
    posix.push('X');
    assert(c@ =~= seq!['C']);
    assert(posix@ =~= seq!['P', 'O', 'S', 'I', 'X']);
    if same_ignoring_case_chars(&name, &c) || same_ignoring_case_chars(&name, &posix) {
        return Some(string_of(&posix));
    }
    let (base, _) = split_first(&name, '.');
    let mut normalized: Vec<char> = Vec::new();
    let mut i: usize = 0;
    while i < base.len()
        invariant
            i <= base@.len(),
            normalized@ =~= underscored(base@).take(i as int),
        decreases base@.len() - i,
    {
        let ch = base[i];
        if ch == '-' || ch == '@' {
            normalized.push('_');
        } else {
            normalized.push(ch);
        }
        i = i + 1;
    }
    assert(underscored(base@).take(i as int) =~= underscored(base@));
    let whole = string_of(&normalized);
    if knows_locale(whole.as_str()) {
        return Some(whole);
    }
    let (language, rest) = split_first(&normalized, '_');
    match rest {
        Some(rest) => {
            let (territory, _) = split_first(&rest, '_');
            let ghost language_chars = language@;
            let mut candidate = language;
            candidate.push('_');
            let mut k: usize = 0;
            let ghost start = candidate@;
            while k < territory.len()
                invariant
                    k <= territory@.len(),
                    candidate@ =~= start + territory@.take(k as int),
                decreases territory@.len() - k,
            {
                candidate.push(territory[k]);
                k = k + 1;
            }
            assert(territory@.take(k as int) =~= territory@);
            assert(candidate@ =~= language_chars + seq!['_'] + territory@);
            assert(language_territory(normalized@) == Some(candidate@));
            let text = string_of(&candidate);
            if knows_locale(text.as_str()) {
                Some(text)
            } else {
                None
            }
        },
        None => None,
    }
}

/// The locale name for an optional system locale: what `parse_locale`
/// makes of it, or `en_US`.
pub fn resolve_locale(locale: Option<&str>) -> (name: String)
    ensures
        name@ == match locale {
            Some(l) => match locale_name(l@) {
                Some(n) => n,
                None => "en_US"@,
            },
            None => "en_US"@,
        },
{
    match locale {
        Some(l) => match parse_locale(l) {
            Some(n) => n,
            None => String::from_str("en_US"),
        },
        None => String::from_str("en_US"),
    }
}

/// `i` is the first candidate that names a known locale.
pub open spec fn first_known(candidates: Seq<String>, i: int) -> bool {
    &&& 0 <= i < candidates.len()
    &&& locale_name(candidates[i]@) is Some
    &&& forall|k: int| 0 <= k < i ==> locale_name(#[trigger] candidates[k]@) is None
}

/// The locale name of the first system locale, in preference order, that
/// names a known locale, or `en_US`.
pub fn system_locale_name(candidates: &Vec<String>) -> (name: String)
    ensures
        (exists|i: int| first_known(candidates@, i)) ==> exists|i: int|
            first_known(candidates@, i) && locale_name(candidates@[i]@) == Some(name@),
        (forall|k: int| 0 <= k < candidates@.len() ==> locale_name(#[trigger] candidates@[k]@) is None)
            ==> name@ == "en_US"@,
{
    let mut i: usize = 0;
    while i < candidates.len()
        invariant
            i <= candidates@.len(),
            forall|k: int| 0 <= k < i ==> locale_name(#[trigger] candidates@[k]@) is None,
        decreases candidates@.len() - i,
    {
        match parse_locale(candidates[i].as_str()) {
            Some(n) => {
                assert(first_known(candidates@, i as int));
                return n;
            },
            None => {},
        }
        i = i + 1;
    }
    assert(!exists|k: int| first_known(candidates@, k));
    String::from_str("en_US")
}

// ---------------------------------------------------------------------
// Localized date and time
// ---------------------------------------------------------------------
/// Largest magnitude of a fixed UTC offset that `chrono` accepts, in seconds.
pub const MAX_FIXED_OFFSET_SECONDS: i32 = 86_399;

/// What `chrono`'s `DateTime::format_localized` with `%x %X %:z` writes, in
/// the locale named `locale`, for the instant `seconds` and `nanos` after the
/// Unix epoch seen at the fixed offset `offset_seconds`; `None` where writing
/// it fails (the locale's formats use a modifier that `chrono` cannot read).
pub uninterp spec fn chrono_localized_text(
    seconds: i64,
    nanos: u32,
    offset_seconds: i32,
    locale: Seq<char>,
) -> Option<Seq<char>>;

/// Writes the local date, time and numeric offset of an instant with
/// `chrono`'s `format_localized("%x %X %:z", locale)` into a string, or gives
/// `None` where the formatter reports an error (locales whose formats use the
/// `%E` or `%O` modifiers). The contract names the outcome
/// `chrono_localized_text`; the instant lies within the years -9999 to 9999
/// (far inside what `DateTime::from_timestamp` accepts), the offset is one
/// that `FixedOffset::east_opt` accepts and the locale one that
/// `Locale::try_from` knows.
#[verifier::external_body]
fn localized_text(seconds: i64, nanos: u32, offset_seconds: i32, locale: &str) -> (text: Option<String>)
    requires
        nanos < 1_000_000_000,
        -377_705_203_200 <= seconds <= 253_402_300_799,
        -MAX_FIXED_OFFSET_SECONDS <= offset_seconds <= MAX_FIXED_OFFSET_SECONDS,
        chrono_knows_locale(locale@),
    ensures
        match text {
            Some(t) => chrono_localized_text(seconds, nanos, offset_seconds, locale@) == Some(t@),
            None => chrono_localized_text(seconds, nanos, offset_seconds, locale@) is None,
        },
{
    let (Some(utc), Some(offset), Ok(locale)) = (
        chrono::DateTime::<chrono::Utc>::from_timestamp(seconds, nanos),
        chrono::FixedOffset::east_opt(offset_seconds),
        chrono::Locale::try_from(locale),
    ) else {
        return None;
    };
    let mut text = String::new();
    match write!(text, "{}", utc.with_timezone(&offset).format_localized("%x %X %:z", locale)) {
        Ok(()) => Some(text),
        Err(_) => None,
    }
}

/// The local date, time and numeric offset of `value` in its own offset, as
/// the locale named `locale` writes them.
pub open spec fn localized_datetime(value: Timestamp, locale: Seq<char>) -> Option<Seq<char>> {
    chrono_localized_text(
        (value.unix_nanos / NANOS_PER_SECOND) as i64,
        (value.unix_nanos % NANOS_PER_SECOND) as u32,
        value.offset_seconds,
        locale,
    )
}

/// An instant within the years -9999 to 9999 in UTC, at an offset that
/// `chrono` accepts.
pub open spec fn fixed_offset_ok(value: Timestamp) -> bool {
    &&& MIN_LOCAL_NANOS <= value.unix_nanos <= MAX_LOCAL_NANOS
    &&& -MAX_FIXED_OFFSET_SECONDS <= value.offset_seconds <= MAX_FIXED_OFFSET_SECONDS
}

/// Whole seconds and nanoseconds of `value` since the Unix epoch, the
/// nanoseconds in `0..10^9`.
fn split_seconds(value: Timestamp) -> (parts: (i64, u32))
    requires
        fixed_offset_ok(value),
    ensures
        parts.0 == value.unix_nanos / NANOS_PER_SECOND,
        parts.1 == value.unix_nanos % NANOS_PER_SECOND,
        parts.1 < 1_000_000_000,
        -377_705_203_200 <= parts.0 <= 253_402_300_799,
{
    let shift: i128 = 400_000_000_000 * NANOS_PER_SECOND;
    let shifted: u128 = (value.unix_nanos + shift) as u128;
    let quotient: u128 = shifted / 1_000_000_000;
    let remainder: u128 = shifted % 1_000_000_000;
    let seconds: i128 = quotient as i128 - 400_000_000_000;
    proof {
        let d: int = NANOS_PER_SECOND as int;
        vstd::arithmetic::div_mod::lemma_fundamental_div_mod(shifted as int, d);
        assert(value.unix_nanos == seconds * d + remainder) by (nonlinear_arith)
            requires
                shifted == value.unix_nanos + 400_000_000_000 * d,
                shifted == d * quotient + remainder,
                seconds == quotient - 400_000_000_000,
        ;
        vstd::arithmetic::div_mod::lemma_fundamental_div_mod_converse_div(
            value.unix_nanos as int,
            d,
            seconds as int,
            remainder as int,
        );
        vstd::arithmetic::div_mod::lemma_fundamental_div_mod_converse_mod(
            value.unix_nanos as int,
            d,
            seconds as int,
            remainder as int,
        );
    }
    (seconds as i64, remainder as u32)
}

/// The local date, time and numeric offset of `value`, which is already in
/// the wanted offset, written for the locale named `locale`; `None` where the
/// locale's formats cannot be written.
pub fn format_localized_datetime(value: Timestamp, locale: &str) -> (text: Option<String>)
    requires
        fixed_offset_ok(value),
        chrono_knows_locale(locale@),
    ensures
        match text {
            Some(t) => localized_datetime(value, locale@) == Some(t@),
            None => localized_datetime(value, locale@) is None,
        },
{
    let (seconds, nanos) = split_seconds(value);
    localized_text(seconds, nanos, value.offset_seconds, locale)
}

/// `format_localized_datetime` where `chrono` can show `value` at its offset
/// and knows the locale, and the locale's formats can be written; `None`
/// otherwise.
pub fn localized_timestamp(value: Timestamp, locale: &str) -> (text: Option<String>)
    ensures
        match text {
            Some(t) => {
                &&& fixed_offset_ok(value)
                &&& chrono_knows_locale(locale@)
                &&& localized_datetime(value, locale@) == Some(t@)
            },
            None => !fixed_offset_ok(value) || !chrono_knows_locale(locale@) || localized_datetime(
                value,
                locale@,
            ) is None,
        },
{
    if value.offset_seconds < -MAX_FIXED_OFFSET_SECONDS || value.offset_seconds
        > MAX_FIXED_OFFSET_SECONDS {
        return None;
    }
    if value.unix_nanos < MIN_LOCAL_NANOS || value.unix_nanos > MAX_LOCAL_NANOS {
        return None;
    }
    if !knows_locale(locale) {
        return None;
    }
    format_localized_datetime(value, locale)
}

} // verus!
