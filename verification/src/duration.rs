//! The duration grammar (`2d3h5m`, bare minutes for timeouts) and its
//! canonical spelling.
use vstd::prelude::*;
use vstd::string::*;

use crate::error::{PortaError, PortaResult};
use vstd::arithmetic::div_mod::lemma_fundamental_div_mod;
use crate::timestamp::{parse_rfc3339, parsed_timestamp, rfc3339_of, timestamp_text, Timestamp};
use crate::text::{
    all_digits, chars_of, decimal_string, decimal_text, decimal_value, is_digit, lead_byte_char,
    lead_byte_char_of, lemma_decimal_text_digits, lemma_decimal_value_prefix, push_char,
    value_of_digit,
};

verus! {

pub const SECOND: u64 = 1;

pub const MINUTE: u64 = 60;

pub const HOUR: u64 = 3600;

pub const DAY: u64 = 86400;

pub const WEEK: u64 = 604800;

/// Seconds per unit letter; zero for a letter that is not a unit.
pub open spec fn unit_seconds(c: char) -> nat {
    if c == 's' {
        1
    } else if c == 'm' {
        60
    } else if c == 'h' {
        3600
    } else if c == 'd' {
        86400
    } else if c == 'w' {
        604800
    } else {
        0
    }
}

pub open spec fn is_unit(c: char) -> bool {
    unit_seconds(c) > 0
}

/// Number of leading ASCII digits of `s`.
pub open spec fn leading_digits(s: Seq<char>) -> nat
    decreases s.len(),
{
    if s.len() > 0 && is_digit(s[0]) {
        1 + leading_digits(s.drop_first())
    } else {
        0
    }
}

/// `s` is a sequence of `<digits><unit>` components whose units are
/// distinct from each other and from those in `seen`.
pub open spec fn components_valid(s: Seq<char>, seen: Set<char>) -> bool
    decreases s.len(),
{
    if s.len() == 0 {
        true
    } else {
        let k = leading_digits(s) as int;
        &&& 0 < k < s.len()
        &&& is_unit(s[k])
        &&& !seen.contains(s[k])
        &&& components_valid(s.skip(k + 1), seen.insert(s[k]))
    }
}

/// Total seconds named by the components of `s`.
pub open spec fn components_seconds(s: Seq<char>) -> nat
    decreases s.len(),
{
    if s.len() == 0 {
        0
    } else {
        let k = leading_digits(s) as int;
        if 0 < k < s.len() {
            decimal_value(s.take(k)) * unit_seconds(s[k]) + components_seconds(s.skip(k + 1))
        } else {
            0
        }
    }
}

/// The seconds that `parse_duration` accepts `s` as, or `None` when it rejects it.
pub open spec fn duration_outcome(s: Seq<char>, bare_minutes: bool, allow_zero: bool) -> Option<
    nat,
> {
    if s.len() == 0 {
        None
    } else if all_digits(s) {
        let seconds = decimal_value(s) * 60;
        if !bare_minutes || seconds > u64::MAX || (seconds == 0 && !allow_zero) {
            None
        } else {
            Some(seconds)
        }
    } else if components_valid(s, Set::empty()) {
        let seconds = components_seconds(s);
        if seconds > u64::MAX || (seconds == 0 && !allow_zero) {
            None
        } else {
            Some(seconds)
        }
    } else {
        None
    }
}

/// What the component scan of `input` gives from the suffix `t` on, with
/// the units in `seen` already used and `acc` seconds counted so far: the
/// total, or the message of the first problem met from left to right.
pub open spec fn scan_components(input: Seq<char>, t: Seq<char>, seen: Set<char>, acc: nat) -> Result<
    nat,
    Seq<char>,
>
    decreases t.len(),
{
    if t.len() == 0 {
        Ok(acc)
    } else {
        let k = leading_digits(t) as int;
        if k == 0 || k >= t.len() {
            Err("invalid duration: "@ + input)
        } else if decimal_value(t.take(k)) > u64::MAX {
            Err("duration component is too large"@)
        } else if is_unit(t[k]) && seen.contains(t[k]) {
            Err("duration unit '"@ + seq![t[k]] + "' appears more than once"@)
        } else if !is_unit(t[k]) {
            Err("unsupported duration unit: "@ + seq![lead_byte_char(t[k])])
        } else if decimal_value(t.take(k)) * unit_seconds(t[k]) > u64::MAX || acc + decimal_value(
            t.take(k),
        ) * unit_seconds(t[k]) > u64::MAX {
            Err("duration is too large"@)
        } else {
            proof {
                assert(t.skip(k + 1).len() < t.len());
            }
            scan_components(
                input,
                t.skip(k + 1),
                seen.insert(t[k]),
                acc + decimal_value(t.take(k)) * unit_seconds(t[k]),
            )
        }
    }
}

/// The seconds that `parse_duration` accepts `s` as, or the message with
/// which it rejects it.
pub open spec fn duration_result(s: Seq<char>, bare_minutes: bool, allow_zero: bool) -> Result<
    nat,
    Seq<char>,
> {
    if s.len() == 0 {
        Err("duration cannot be empty"@)
    } else if all_digits(s) {
        if !bare_minutes {
            Err("duration requires a unit"@)
        } else if decimal_value(s) > u64::MAX {
            Err("duration component is too large"@)
        } else if decimal_value(s) * 60 > u64::MAX {
            Err("duration is too large"@)
        } else if decimal_value(s) == 0 && !allow_zero {
            Err("duration must be positive"@)
        } else {
            Ok(decimal_value(s) * 60)
        }
    } else {
        match scan_components(s, s, Set::empty(), 0) {
            Err(message) => Err(message),
            Ok(total) => if total == 0 && !allow_zero {
                Err("duration must be positive"@)
            } else {
                Ok(total)
            },
        }
    }
}

pub open spec fn is_invalid_duration(error: PortaError) -> bool {
    error.code@ == "invalid_duration"@ && error.exit_code == 2
}

proof fn lemma_leading_digits(t: Seq<char>, k: int)
    requires
        0 <= k <= t.len(),
        forall|j: int| 0 <= j < k ==> is_digit(#[trigger] t[j]),
        k == t.len() || !is_digit(t[k]),
    ensures
        leading_digits(t) == k,
    decreases k,
{
    if k > 0 {
        let u = t.drop_first();
        assert forall|j: int| 0 <= j < k - 1 implies is_digit(#[trigger] u[j]) by {
            assert(u[j] == t[j + 1]);
        }
        if k < t.len() {
            assert(u[k - 1] == t[k]);
        }
        lemma_leading_digits(u, k - 1);
    }
}

proof fn lemma_components_seconds_unfold(t: Seq<char>, k: int)
    requires
        t.len() > 0,
        leading_digits(t) == k,
        0 < k < t.len(),
    ensures
        components_seconds(t) == decimal_value(t.take(k)) * unit_seconds(t[k]) + components_seconds(
            t.skip(k + 1),
        ),
{
}

fn invalid_duration(message: String) -> (error: PortaError)
    ensures
        is_invalid_duration(error),
        error.message@ == message@,
{
    PortaError::invalid("invalid_duration", message)
}

fn invalid_duration_str(message: &str) -> (error: PortaError)
    ensures
        is_invalid_duration(error),
        error.message@ == message@,
{
    invalid_duration(String::from_str(message))
}

/// Value of the digits `chars[from..to]` when it fits in a `u64`.
fn digits_value(chars: &Vec<char>, from: usize, to: usize) -> (value: Option<u64>)
    requires
        from <= to <= chars@.len(),
        forall|j: int| from <= j < to ==> is_digit(#[trigger] chars@[j]),
    ensures
        match value {
            Some(v) => v as nat == decimal_value(chars@.subrange(from as int, to as int)),
            None => decimal_value(chars@.subrange(from as int, to as int)) > u64::MAX,
        },
{
    let ghost digits = chars@.subrange(from as int, to as int);
    let mut acc: u64 = 0;
    let mut i: usize = from;
    while i < to
        invariant
            from <= i <= to <= chars@.len(),
            digits == chars@.subrange(from as int, to as int),
            forall|j: int| from <= j < to ==> is_digit(#[trigger] chars@[j]),
            acc as nat == decimal_value(digits.take(i - from)),
        decreases to - i,
    {
        let c = chars[i];
        assert(is_digit(chars@[i as int]));
        let d = value_of_digit(c);
        proof {
            assert(digits.take(i - from + 1).drop_last() =~= digits.take(i - from));
            assert(digits.take(i - from + 1).last() == c);
        }
        let next: u128 = acc as u128 * 10 + d as u128;
        if next > u64::MAX as u128 {
            proof {
                lemma_decimal_value_prefix(digits, i - from + 1);
            }
            return None;
        }
        acc = next as u64;
        i = i + 1;
    }
    assert(digits.take(to - from) =~= digits);
    Some(acc)
}

/// Parses a duration: components of digits followed by one of `s`, `m`, `h`,
/// `d`, `w`, each unit at most once (`2d3h5m`). A bare integer means minutes
/// when `bare_minutes` is set. Zero is rejected unless `allow_zero` is set.
/// Returns the duration in seconds.
pub fn parse_duration(input: &str, bare_minutes: bool, allow_zero: bool) -> (result: PortaResult<
    u64,
>)
    ensures
        match result {
            Ok(seconds) => duration_outcome(input@, bare_minutes, allow_zero) == Some(
                seconds as nat,
            ) && duration_result(input@, bare_minutes, allow_zero) == Ok::<nat, Seq<char>>(
                seconds as nat,
            ),
            Err(error) => {
                &&& duration_outcome(input@, bare_minutes, allow_zero) is None
                &&& is_invalid_duration(error)
                &&& duration_result(input@, bare_minutes, allow_zero) == Err::<nat, Seq<char>>(
                    error.message@,
                )
            },
        },
{
    let chars = chars_of(input);
    let n = chars.len();
    if n == 0 {
        return Err(invalid_duration_str("duration cannot be empty"));
    }
    let mut all: bool = true;
    let mut j: usize = 0;
    while j < n
        invariant
            j <= n == chars@.len(),
            all == (forall|i: int| 0 <= i < j ==> is_digit(#[trigger] chars@[i])),
        decreases n - j,
    {
        let c = chars[j];
        if !('0' <= c && c <= '9') {
            all = false;
        }
        j = j + 1;
    }
    if all {
        if !bare_minutes {
            return Err(invalid_duration_str("duration requires a unit"));
        }
        assert(chars@.subrange(0, n as int) =~= chars@);
        let minutes = match digits_value(&chars, 0, n) {
            Some(v) => v,
            None => {
                return Err(invalid_duration_str("duration component is too large"));
            },
        };
        return checked_duration(minutes, MINUTE, allow_zero);
    }
    let ghost s = chars@;
    let mut index: usize = 0;
    let mut seconds: u64 = 0;
    let mut seen_s = false;
    let mut seen_m = false;
    let mut seen_h = false;
    let mut seen_d = false;
    let mut seen_w = false;
    let ghost mut seen: Set<char> = Set::empty();
    assert(s.skip(0) =~= s);
    while index < n
        invariant
            s == chars@,
            s == input@,
            n == s.len(),
            index <= n,
            !all_digits(s),
            s.len() > 0,
            components_valid(s, Set::empty()) == components_valid(s.skip(index as int), seen),
            components_seconds(s) == seconds + components_seconds(s.skip(index as int)),
            scan_components(s, s, Set::empty(), 0) == scan_components(
                s,
                s.skip(index as int),
                seen,
                seconds as nat,
            ),
            seen.contains('s') == seen_s,
            seen.contains('m') == seen_m,
            seen.contains('h') == seen_h,
            seen.contains('d') == seen_d,
            seen.contains('w') == seen_w,
        decreases n - index,
    {
        let ghost t = s.skip(index as int);
        let number_start = index;
        while index < n && ('0' <= chars[index] && chars[index] <= '9')
            invariant
                number_start <= index <= n == chars@.len(),
                forall|j: int| number_start <= j < index ==> is_digit(#[trigger] chars@[j]),
            decreases n - index,
        {
            index = index + 1;
        }
        let ghost k = (index - number_start) as int;
        proof {
            assert forall|j: int| 0 <= j < k implies is_digit(#[trigger] t[j]) by {
                assert(t[j] == s[number_start + j]);
            }
            if index < n {
                assert(t[k] == s[index as int]);
            }
            lemma_leading_digits(t, k);
        }
        if number_start == index || index == n {
            let mut message = String::from_str("invalid duration: ");
            message.append(input);
            return Err(invalid_duration(message));
        }
        proof {
            assert(t.take(k) =~= chars@.subrange(number_start as int, index as int));
            assert(t[k] == s[index as int]);
            assert(t.skip(k + 1) =~= s.skip(index + 1));
            lemma_components_seconds_unfold(t, k);
        }
        let number = match digits_value(&chars, number_start, index) {
            Some(v) => v,
            None => {
                proof {
                    if components_valid(s, Set::empty()) {
                        assert(unit_seconds(t[k]) >= 1);
                        assert(decimal_value(t.take(k)) * unit_seconds(t[k]) >= decimal_value(
                            t.take(k),
                        )) by (nonlinear_arith)
                            requires
                                unit_seconds(t[k]) >= 1,
                        ;
                    }
                }
                return Err(invalid_duration_str("duration component is too large"));
            },
        };
        let unit = chars[index];
        index = index + 1;
        let already = if unit == 's' {
            seen_s
        } else if unit == 'm' {
            seen_m
        } else if unit == 'h' {
            seen_h
        } else if unit == 'd' {
            seen_d
        } else if unit == 'w' {
            seen_w
        } else {
            false
        };
        if already {
            let mut message = String::from_str("duration unit '");
            push_char(&mut message, unit);
            message.append("' appears more than once");
            assert(message@ =~= "duration unit '"@ + seq![unit] + "' appears more than once"@);
            return Err(invalid_duration(message));
        }
        let multiplier: u64 = if unit == 's' {
            seen_s = true;
            SECOND
        } else if unit == 'm' {
            seen_m = true;
            MINUTE
        } else if unit == 'h' {
            seen_h = true;
            HOUR
        } else if unit == 'd' {
            seen_d = true;
            DAY
        } else if unit == 'w' {
            seen_w = true;
            WEEK
        } else {
            let mut message = String::from_str("unsupported duration unit: ");
            push_char(&mut message, lead_byte_char_of(unit));
            assert(message@ =~= "unsupported duration unit: "@ + seq![lead_byte_char(unit)]);
            return Err(invalid_duration(message));
        };
        assert(multiplier as nat == unit_seconds(unit));
        let component = match number.checked_mul(multiplier) {
            Some(v) => v,
            None => {
                return Err(invalid_duration_str("duration is too large"));
            },
        };
        seconds = match seconds.checked_add(component) {
            Some(v) => v,
            None => {
                return Err(invalid_duration_str("duration is too large"));
            },
        };
        proof {
            seen = seen.insert(unit);
        }
    }
    assert(s.skip(n as int) =~= Seq::<char>::empty());
    if seconds == 0 && !allow_zero {
        return Err(invalid_duration_str("duration must be positive"));
    }
    Ok(seconds)
}

fn checked_duration(value: u64, multiplier: u64, allow_zero: bool) -> (result: PortaResult<u64>)
    ensures
        match result {
            Ok(seconds) => seconds == value * multiplier && (seconds > 0 || allow_zero),
            Err(error) => is_invalid_duration(error) && if value * multiplier > u64::MAX {
                error.message@ == "duration is too large"@
            } else {
                value * multiplier == 0 && !allow_zero && error.message@
                    == "duration must be positive"@
            },
        },
{
    let seconds = match value.checked_mul(multiplier) {
        Some(v) => v,
        None => {
            return Err(invalid_duration_str("duration is too large"));
        },
    };
    if seconds == 0 && !allow_zero {
        return Err(invalid_duration_str("duration must be positive"));
    }
    Ok(seconds)
}

/// `count` followed by `unit`, or nothing when `count` is zero.
pub open spec fn unit_text(count: nat, unit: char) -> Seq<char> {
    if count > 0 {
        decimal_text(count).push(unit)
    } else {
        Seq::empty()
    }
}

/// The canonical spelling of a duration: largest units first, zero
/// components left out, and `0s` for zero.
pub open spec fn duration_text(seconds: nat) -> Seq<char> {
    if seconds == 0 {
        seq!['0', 's']
    } else {
        let r1 = seconds % 604800;
        let r2 = r1 % 86400;
        let r3 = r2 % 3600;
        unit_text(seconds / 604800, 'w') + unit_text(r1 / 86400, 'd') + unit_text(r2 / 3600, 'h')
            + unit_text(r3 / 60, 'm') + unit_text(r3 % 60, 's')
    }
}

fn append_unit(output: &mut String, count: u64, unit: char)
    ensures
        final(output)@ == old(output)@ + unit_text(count as nat, unit),
{
    if count > 0 {
        let digits = decimal_string(count);
        output.append(digits.as_str());
        push_char(output, unit);
    } else {
        assert(old(output)@ + unit_text(count as nat, unit) =~= old(output)@);
    }
}

/// The canonical spelling of `seconds`, such as `2d3h5m`.
pub fn format_duration(seconds: u64) -> (text: String)
    ensures
        text@ == duration_text(seconds as nat),
{
    if seconds == 0 {
        let mut text = String::new();
        push_char(&mut text, '0');
        push_char(&mut text, 's');
        assert(text@ =~= seq!['0', 's']);
        return text;
    }
    let mut output = String::new();
    let r1 = seconds % WEEK;
    let r2 = r1 % DAY;
    let r3 = r2 % HOUR;
    append_unit(&mut output, seconds / WEEK, 'w');
    append_unit(&mut output, r1 / DAY, 'd');
    append_unit(&mut output, r2 / HOUR, 'h');
    append_unit(&mut output, r3 / MINUTE, 'm');
    append_unit(&mut output, r3 % MINUTE, 's');
    assert(output@ =~= duration_text(seconds as nat));
    output
}

proof fn lemma_components_prepend(count: nat, unit: char, rest: Seq<char>, seen: Set<char>)
    requires
        is_unit(unit),
    ensures
        components_valid(unit_text(count, unit) + rest, seen) == (if count > 0 {
            !seen.contains(unit) && components_valid(rest, seen.insert(unit))
        } else {
            components_valid(rest, seen)
        }),
        components_seconds(unit_text(count, unit) + rest) == count * unit_seconds(unit)
            + components_seconds(rest),
{
    if count == 0 {
        assert(unit_text(count, unit) + rest =~= rest);
    } else {
        let digits = decimal_text(count);
        lemma_decimal_text_digits(count);
        let t = unit_text(count, unit) + rest;
        let k = digits.len() as int;
        assert forall|j: int| 0 <= j < k implies is_digit(#[trigger] t[j]) by {
            assert(t[j] == digits[j]);
        }
        assert(t[k] == unit);
        lemma_leading_digits(t, k);
        assert(t.take(k) =~= digits);
        assert(t.skip(k + 1) =~= rest);
    }
}

proof fn lemma_unit_text_not_digits(count: nat, unit: char, rest: Seq<char>)
    requires
        count > 0,
        is_unit(unit),
    ensures
        !all_digits(unit_text(count, unit) + rest),
        (unit_text(count, unit) + rest).len() > 0,
{
    let t = unit_text(count, unit) + rest;
    let k = decimal_text(count).len() as int;
    assert(t[k] == unit);
}

proof fn lemma_duration_split(n: nat)
    ensures
        n == (n / 604800) * 604800 + ((n % 604800) / 86400) * 86400 + (((n % 604800) % 86400)
            / 3600) * 3600 + ((((n % 604800) % 86400) % 3600) / 60) * 60 + (((n % 604800)
            % 86400) % 3600) % 60,
{
    let r1 = n % 604800;
    let r2 = r1 % 86400;
    let r3 = r2 % 3600;
    lemma_fundamental_div_mod(n as int, 604800);
    lemma_fundamental_div_mod(r1 as int, 86400);
    lemma_fundamental_div_mod(r2 as int, 3600);
    lemma_fundamental_div_mod(r3 as int, 60);
}

proof fn lemma_duration_text_zero()
    ensures
        !all_digits(duration_text(0)),
        duration_text(0).len() > 0,
        components_valid(duration_text(0), Set::empty()),
        components_seconds(duration_text(0)) == 0,
{
    let t = duration_text(0);
    assert(t =~= seq!['0', 's']);
    assert(!is_digit(t[1]));
    let z = t.take(1);
    assert(z.len() == 1);
    assert(z.drop_last() =~= Seq::<char>::empty());
    assert(decimal_value(z.drop_last()) == 0);
    assert(z.last() == '0');
    assert(decimal_value(z) == 0);
    assert forall|j: int| 0 <= j < 1 implies is_digit(#[trigger] t[j]) by {}
    lemma_leading_digits(t, 1);
    let rest = t.skip(2);
    assert(rest =~= Seq::<char>::empty());
    assert(components_valid(rest, Set::empty().insert('s')));
    assert(components_seconds(rest) == 0);
    assert(is_unit(t[1]));
}

proof fn lemma_duration_text_positive(n: nat)
    requires
        n > 0,
    ensures
        !all_digits(duration_text(n)),
        duration_text(n).len() > 0,
        components_valid(duration_text(n), Set::empty()),
        components_seconds(duration_text(n)) == n,
{
    let r1 = n % 604800;
    let r2 = r1 % 86400;
    let r3 = r2 % 3600;
    let w = n / 604800;
    let d = r1 / 86400;
    let h = r2 / 3600;
    let m = r3 / 60;
    let sec = r3 % 60;
    let tail_s = unit_text(sec, 's');
    let tail_m = unit_text(m, 'm') + tail_s;
    let tail_h = unit_text(h, 'h') + tail_m;
    let tail_d = unit_text(d, 'd') + tail_h;
    let all = unit_text(w, 'w') + tail_d;
    assert(all =~= duration_text(n));
    assert(tail_s =~= unit_text(sec, 's') + Seq::<char>::empty());
    let empty_seen = Set::<char>::empty();
    let s1 = if w > 0 {
        empty_seen.insert('w')
    } else {
        empty_seen
    };
    let s2 = if d > 0 {
        s1.insert('d')
    } else {
        s1
    };
    let s3 = if h > 0 {
        s2.insert('h')
    } else {
        s2
    };
    let s4 = if m > 0 {
        s3.insert('m')
    } else {
        s3
    };
    lemma_components_prepend(sec, 's', Seq::<char>::empty(), s4);
    lemma_components_prepend(m, 'm', tail_s, s3);
    lemma_components_prepend(h, 'h', tail_m, s2);
    lemma_components_prepend(d, 'd', tail_h, s1);
    lemma_components_prepend(w, 'w', tail_d, empty_seen);
    assert(!s4.contains('s'));
    assert(!s3.contains('m'));
    assert(!s2.contains('h'));
    assert(!s1.contains('d'));
    lemma_duration_split(n);
    if w > 0 {
        lemma_unit_text_not_digits(w, 'w', tail_d);
    } else if d > 0 {
        lemma_unit_text_not_digits(d, 'd', tail_h);
    } else if h > 0 {
        lemma_unit_text_not_digits(h, 'h', tail_m);
    } else if m > 0 {
        lemma_unit_text_not_digits(m, 'm', tail_s);
    } else {
        lemma_unit_text_not_digits(sec, 's', Seq::<char>::empty());
    }
}

/// Spelling a duration canonically and parsing the spelling gives the
/// duration back, whether or not bare minutes are allowed.
pub proof fn lemma_duration_text_round_trip(seconds: u64, bare_minutes: bool)
    ensures
        duration_outcome(duration_text(seconds as nat), bare_minutes, true) == Some(seconds as nat),
        seconds > 0 ==> duration_outcome(duration_text(seconds as nat), bare_minutes, false)
            == Some(seconds as nat),
{
    if seconds == 0 {
        lemma_duration_text_zero();
    } else {
        lemma_duration_text_positive(seconds as nat);
    }
}

/// The expiration that a text names relative to `now`, given what the
/// RFC 3339 reader made of it: a future timestamp moved to UTC, or else a
/// positive duration from `now`.
pub open spec fn expiration_outcome(text: Seq<char>, parsed: Option<Timestamp>, now: Timestamp) -> Option<
    Timestamp,
> {
    match parsed {
        Some(t) => if t.unix_nanos <= now.unix_nanos {
            None
        } else {
            t.spec_to_utc()
        },
        None => match duration_outcome(text, false, false) {
            Some(seconds) => now.spec_add_seconds(seconds),
            None => None,
        },
    }
}

/// The message with which an expiration is refused, where
/// `expiration_outcome` has none.
pub open spec fn expiration_error(text: Seq<char>, parsed: Option<Timestamp>, now: Timestamp) -> Seq<
    char,
> {
    match parsed {
        Some(t) => if t.unix_nanos <= now.unix_nanos {
            "expiration must be in the future"@
        } else {
            "expiration is too large"@
        },
        None => match duration_result(text, false, false) {
            Err(message) => message,
            Ok(seconds) => if seconds > i64::MAX {
                "expiration duration is too large"@
            } else {
                "expiration is too large"@
            },
        },
    }
}

/// A timestamp read from the text cannot be moved to UTC without leaving the
/// representable range (the date-time type panics there).
pub open spec fn expiration_overflows(parsed: Option<Timestamp>, now: Timestamp) -> bool {
    parsed matches Some(t) && t.unix_nanos > now.unix_nanos && t.spec_to_utc() is None
}

/// Decides an expiration from its text and what the RFC 3339 reader made of it.
pub fn resolve_expiration(input: &str, parsed: Option<Timestamp>, now: Timestamp) -> (result:
    PortaResult<Timestamp>)
    requires
        now.well_formed(),
        now.is_utc(),
        !expiration_overflows(parsed, now),
    ensures
        match result {
            Ok(t) => expiration_outcome(input@, parsed, now) == Some(t) && t.is_utc()
                && t.well_formed(),
            Err(error) => {
                &&& expiration_outcome(input@, parsed, now) is None
                &&& is_invalid_duration(error)
                &&& error.message@ == expiration_error(input@, parsed, now)
            },
        },
{
    if let Some(timestamp) = parsed {
        if !timestamp.is_after(&now) {
            return Err(invalid_duration_str("expiration must be in the future"));
        }
        return match timestamp.to_utc() {
            Some(utc) => Ok(utc),
            None => Err(invalid_duration_str("expiration is too large")),
        };
    }
    let seconds = parse_duration(input, false, false)?;
    if seconds > i64::MAX as u64 {
        return Err(invalid_duration_str("expiration duration is too large"));
    }
    match now.checked_add_seconds(seconds) {
        Some(t) => Ok(t),
        None => Err(invalid_duration_str("expiration is too large")),
    }
}

/// Reads a reservation expiration: an RFC 3339 timestamp that must be in the
/// future, normalized to UTC, or a duration measured from `now`.
pub fn parse_expiration(input: &str, now: Timestamp) -> (result: PortaResult<Timestamp>)
    requires
        now.well_formed(),
        now.is_utc(),
        !expiration_overflows(parsed_timestamp(input@), now),
    ensures
        match result {
            Ok(t) => expiration_outcome(input@, parsed_timestamp(input@), now) == Some(t)
                && t.is_utc(),
            Err(error) => {
                &&& expiration_outcome(input@, parsed_timestamp(input@), now) is None
                &&& is_invalid_duration(error)
                &&& error.message@ == expiration_error(input@, parsed_timestamp(input@), now)
            },
        },
{
    let parsed = parse_rfc3339(input);
    resolve_expiration(input, parsed, now)
}

/// Reads a reservation expiration as `parse_expiration` does, or returns
/// `None` where the text names a future timestamp whose UTC date-time the
/// date-time type cannot represent.
pub fn checked_parse_expiration(input: &str, now: Timestamp) -> (result: Option<
    PortaResult<Timestamp>,
>)
    requires
        now.well_formed(),
        now.is_utc(),
    ensures
        match result {
            None => expiration_overflows(parsed_timestamp(input@), now),
            Some(Ok(t)) => !expiration_overflows(parsed_timestamp(input@), now)
                && expiration_outcome(input@, parsed_timestamp(input@), now) == Some(t),
            Some(Err(error)) => {
                &&& !expiration_overflows(parsed_timestamp(input@), now)
                &&& expiration_outcome(input@, parsed_timestamp(input@), now) is None
                &&& is_invalid_duration(error)
                &&& error.message@ == expiration_error(input@, parsed_timestamp(input@), now)
            },
        },
{
    let parsed = parse_rfc3339(input);
    if let Some(timestamp) = parsed {
        if timestamp.is_after(&now) && timestamp.to_utc().is_none() {
            return None;
        }
    }
    Some(parse_expiration(input, now))
}

/// RFC 3339 text of a timestamp.
pub fn format_timestamp(value: Timestamp) -> (result: PortaResult<String>)
    requires
        value.well_formed(),
    ensures
        match result {
            Ok(text) => timestamp_text(value) == Ok::<Seq<char>, Seq<char>>(text@),
            Err(error) => {
                &&& timestamp_text(value) == Err::<Seq<char>, Seq<char>>(error.message@)
                &&& error.code@ == "timestamp_failed"@ && error.exit_code == 3
            },
        },
{
    match rfc3339_of(&value) {
        Ok(text) => Ok(text),
        Err(message) => Err(PortaError::infrastructure("timestamp_failed", message)),
    }
}

} // verus!
