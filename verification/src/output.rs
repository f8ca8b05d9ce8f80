//! Plain-text answers and the pieces of command-line handling that are
//! rules rather than input and output: port arguments, response types and
//! the text of plain output.
use vstd::prelude::*;
use vstd::string::*;

use crate::config::{plain_text, ConfigEntry};
use crate::error::{PortaError, PortaResult};
use crate::registry::model::key_view;
use crate::service::{has_code, ReserveResult};
use crate::text::{chars_of, decimal_string, decimal_text, push_char};
use crate::timestamp::{rfc3339_of, timestamp_text, Timestamp, MAX_LOCAL_NANOS, MAX_OFFSET_SECONDS, MIN_LOCAL_NANOS, NANOS_PER_SECOND};
use crate::views::PortInfo;

verus! {

/// The `type` discriminator of a JSON response.
#[derive(Clone, Copy, Debug, PartialEq, Eq, Structural)]
pub enum ResponseType {
    Lease,
    Reserve,
    Release,
    Get,
    Info,
    Listeners,
    List,
    Clean,
    Config,
    ConfigGet,
    ConfigSet,
    Error,
}

pub open spec fn response_type_name(kind: ResponseType) -> Seq<char> {
    match kind {
        ResponseType::Lease => "lease"@,
        ResponseType::Reserve => "reserve"@,
        ResponseType::Release => "release"@,
        ResponseType::Get => "get"@,
        ResponseType::Info => "info"@,
        ResponseType::Listeners => "listeners"@,
        ResponseType::List => "list"@,
        ResponseType::Clean => "clean"@,
        ResponseType::Config => "config"@,
        ResponseType::ConfigGet => "config_get"@,
        ResponseType::ConfigSet => "config_set"@,
        ResponseType::Error => "error"@,
    }
}

impl ResponseType {
    pub fn as_str(self) -> (name: &'static str)
        ensures
            name@ == response_type_name(self),
    {
        match self {
            ResponseType::Lease => "lease",
            ResponseType::Reserve => "reserve",
            ResponseType::Release => "release",
            ResponseType::Get => "get",
            ResponseType::Info => "info",
            ResponseType::Listeners => "listeners",
            ResponseType::List => "list",
            ResponseType::Clean => "clean",
            ResponseType::Config => "config",
            ResponseType::ConfigGet => "config_get",
            ResponseType::ConfigSet => "config_set",
            ResponseType::Error => "error",
        }
    }
}

/// A port argument: a number from 1 to 65535 (`invalid_port` otherwise).
pub fn valid_port(value: u32) -> (result: PortaResult<u16>)
    ensures
        match result {
            Ok(port) => 1 <= value <= 65535 && port == value,
            Err(error) => {
                &&& value == 0 || value > 65535
                &&& has_code(error, "invalid_port"@, 2)
                &&& error.message@ == "Port must be between 1 and 65535"@
            },
        },
{
    if value == 0 || value > 65535 {
        return Err(
            PortaError::invalid("invalid_port", String::from_str("Port must be between 1 and 65535")),
        );
    }
    Ok(value as u16)
}

/// The ports in decimal, separated by single spaces.
pub open spec fn ports_text(ports: Seq<u16>) -> Seq<char>
    decreases ports.len(),
{
    if ports.len() == 0 {
        Seq::empty()
    } else if ports.len() == 1 {
        decimal_text(ports[0] as nat)
    } else {
        ports_text(ports.drop_last()) + seq![' '] + decimal_text(ports.last() as nat)
    }
}

fn append_chars(text: &mut String, tail: &str)
    ensures
        final(text)@ == old(text)@ + tail@,
{
    text.append(tail);
}

/// The ports in decimal, separated by single spaces.
pub fn format_ports(ports: &Vec<u16>) -> (text: String)
    ensures
        text@ == ports_text(ports@),
{
    let mut text = String::new();
    let mut i: usize = 0;
    while i < ports.len()
        invariant
            i <= ports@.len(),
            text@ == ports_text(ports@.take(i as int)),
        decreases ports@.len() - i,
    {
        assert(ports@.take(i + 1).drop_last() =~= ports@.take(i as int));
        if i > 0 {
            push_char(&mut text, ' ');
        }
        let number = decimal_string(ports[i] as u64);
        append_chars(&mut text, number.as_str());
        assert(text@ =~= ports_text(ports@.take(i + 1)));
        i = i + 1;
    }
    assert(ports@.take(i as int) =~= ports@);
    text
}

/// `Released ` and the released ports.
pub fn released_text(ports: &Vec<u16>) -> (text: String)
    ensures
        text@ == "Released "@ + ports_text(ports@),
{
    let mut text = String::from_str("Released ");
    let listed = format_ports(ports);
    append_chars(&mut text, listed.as_str());
    text
}

// ---------------------------------------------------------------------
// Lines
// ---------------------------------------------------------------------
/// A line without the carriage return of a `\r\n` ending.
pub open spec fn strip_cr(line: Seq<char>) -> Seq<char> {
    if line.len() > 0 && line.last() == '\r' {
        line.drop_last()
    } else {
        line
    }
}

/// The lines of `s` after the unfinished line `run`: split at `\n`, a
/// `\r\n` ending removed, and no empty line after a final `\n`.
pub open spec fn lines_after(s: Seq<char>, run: Seq<char>) -> Seq<Seq<char>>
    decreases s.len(),
{
    if s.len() == 0 {
        if run.len() == 0 {
            Seq::empty()
        } else {
            seq![run]
        }
    } else if s[0] == '\n' {
        seq![strip_cr(run)] + lines_after(s.drop_first(), Seq::empty())
    } else {
        lines_after(s.drop_first(), run.push(s[0]))
    }
}

pub open spec fn text_lines(s: Seq<char>) -> Seq<Seq<char>> {
    lines_after(s, Seq::empty())
}

/// Each line preceded by two spaces, the lines joined by `\n`.
pub open spec fn indented(lines: Seq<Seq<char>>) -> Seq<char>
    decreases lines.len(),
{
    if lines.len() == 0 {
        Seq::empty()
    } else if lines.len() == 1 {
        seq![' ', ' '] + lines[0]
    } else {
        indented(lines.drop_last()) + seq!['\n', ' ', ' '] + lines.last()
    }
}

fn append_vec(text: &mut String, tail: &Vec<char>)
    ensures
        final(text)@ == old(text)@ + tail@,
{
    let ghost start = text@;
    let mut i: usize = 0;
    while i < tail.len()
        invariant
            i <= tail@.len(),
            text@ == start + tail@.take(i as int),
        decreases tail@.len() - i,
    {
        push_char(text, tail[i]);
        assert(tail@.take(i + 1) =~= tail@.take(i as int).push(tail@[i as int]));
        i = i + 1;
    }
    assert(tail@.take(i as int) =~= tail@);
}

/// Every line of `text` indented by two spaces.
pub fn indent(text: &str) -> (result: String)
    ensures
        result@ == indented(text_lines(text@)),
{
    let chars = chars_of(text);
    let n = chars.len();
    let mut lines: Vec<Vec<char>> = Vec::new();
    let mut run: Vec<char> = Vec::new();
    let mut i: usize = 0;
    assert(chars@.skip(0) =~= chars@);
    while i < n
        invariant
            n == chars@.len(),
            chars@ == text@,
            i <= n,
            text_lines(text@) == lines@.map_values(|l: Vec<char>| l@) + lines_after(
                chars@.skip(i as int),
                run@,
            ),
        decreases n - i,
    {
        let c = chars[i];
        let ghost rest = chars@.skip(i as int);
        assert(rest[0] == c);
        assert(rest.drop_first() =~= chars@.skip(i + 1));
        if c == '\n' {
            let ghost before = lines@.map_values(|l: Vec<char>| l@);
            let ghost unfinished = run@;
            let mut line = run;
            if line.len() > 0 && line[line.len() - 1] == '\r' {
                line.pop();
            }
            assert(line@ == strip_cr(unfinished));
            lines.push(line);
            run = Vec::new();
            assert(lines@.map_values(|l: Vec<char>| l@) =~= before + seq![strip_cr(unfinished)]) by {
                assert(lines@.map_values(|l: Vec<char>| l@) =~= before.push(line@));
            }
        } else {
            run.push(c);
        }
        i = i + 1;
    }
    if run.len() > 0 {
        lines.push(run);
    }
    let ghost all = lines@.map_values(|l: Vec<char>| l@);
    assert(all == text_lines(text@));
    let mut result = String::new();
    let mut k: usize = 0;
    while k < lines.len()
        invariant
            k <= lines@.len(),
            all == lines@.map_values(|l: Vec<char>| l@),
            result@ == indented(all.take(k as int)),
        decreases lines@.len() - k,
    {
        assert(all.take(k + 1).drop_last() =~= all.take(k as int));
        if k > 0 {
            push_char(&mut result, '\n');
        }
        push_char(&mut result, ' ');
        push_char(&mut result, ' ');
        append_vec(&mut result, &lines[k]);
        assert(result@ =~= indented(all.take(k + 1)));
        k = k + 1;
    }
    assert(all.take(k as int) =~= all);
    result
}

// ---------------------------------------------------------------------
// Command answers
// ---------------------------------------------------------------------
/// A key, or `-` without one.
pub open spec fn or_dash(text: Option<Seq<char>>) -> Seq<char> {
    match text {
        Some(t) => t,
        None => seq!['-'],
    }
}

/// `KEY=PORT` pairs, keyless allocations shown with `-`, separated by
/// single spaces.
pub open spec fn keyed_text(keys: Seq<Option<Seq<char>>>, ports: Seq<u16>) -> Seq<char>
    decreases keys.len(),
{
    if keys.len() == 0 {
        Seq::empty()
    } else {
        let pair = or_dash(keys.last()) + seq!['='] + decimal_text(ports[keys.len() - 1] as nat);
        if keys.len() == 1 {
            pair
        } else {
            keyed_text(keys.drop_last(), ports) + seq![' '] + pair
        }
    }
}

/// The plain answer of `reserve`: `KEY=PORT` pairs when any allocation is
/// keyed, else the ports.
pub fn reserve_text(result: &ReserveResult) -> (text: String)
    ensures
        ({
            let keys = result.allocations@.map_values(|a: crate::registry::Allocation| key_view(a.key));
            let ports = result.allocations@.map_values(|a: crate::registry::Allocation| a.port);
            text@ == if exists|i: int| 0 <= i < keys.len() && #[trigger] keys[i] is Some {
                keyed_text(keys, ports)
            } else {
                ports_text(ports)
            }
        }),
{
    let ghost keys = result.allocations@.map_values(|a: crate::registry::Allocation| key_view(a.key));
    let ghost ports = result.allocations@.map_values(|a: crate::registry::Allocation| a.port);
    let allocations = &result.allocations;
    let mut any_key = false;
    let mut i: usize = 0;
    while i < allocations.len()
        invariant
            i <= allocations@.len(),
            keys == allocations@.map_values(|a: crate::registry::Allocation| key_view(a.key)),
            any_key == exists|k: int| 0 <= k < i && #[trigger] keys[k] is Some,
        decreases allocations@.len() - i,
    {
        if allocations[i].key.is_some() {
            assert(keys[i as int] is Some);
            any_key = true;
        }
        i = i + 1;
    }
    let mut text = String::new();
    let mut k: usize = 0;
    if any_key {
        while k < allocations.len()
            invariant
                k <= allocations@.len(),
                keys == allocations@.map_values(|a: crate::registry::Allocation| key_view(a.key)),
                ports == allocations@.map_values(|a: crate::registry::Allocation| a.port),
                text@ == keyed_text(keys.take(k as int), ports),
            decreases allocations@.len() - k,
        {
            assert(keys.take(k + 1).drop_last() =~= keys.take(k as int));
            if k > 0 {
                push_char(&mut text, ' ');
            }
            match &allocations[k].key {
                Some(key) => append_chars(&mut text, key.as_str()),
                None => push_char(&mut text, '-'),
            }
            push_char(&mut text, '=');
            let number = decimal_string(allocations[k].port as u64);
            append_chars(&mut text, number.as_str());
            assert(text@ =~= keyed_text(keys.take(k + 1), ports));
            k = k + 1;
        }
        assert(keys.take(k as int) =~= keys);
    } else {
        while k < allocations.len()
            invariant
                k <= allocations@.len(),
                ports == allocations@.map_values(|a: crate::registry::Allocation| a.port),
                text@ == ports_text(ports.take(k as int)),
            decreases allocations@.len() - k,
        {
            assert(ports.take(k + 1).drop_last() =~= ports.take(k as int));
            if k > 0 {
                push_char(&mut text, ' ');
            }
            let number = decimal_string(allocations[k].port as u64);
            append_chars(&mut text, number.as_str());
            assert(text@ =~= ports_text(ports.take(k + 1)));
            k = k + 1;
        }
        assert(ports.take(k as int) =~= ports);
    }
    text
}

/// The cells of one row of the configuration table: key, effective value,
/// default, and `set` or `unset`.
pub fn config_row(entry: &ConfigEntry) -> (row: Vec<String>)
    ensures
        row@.len() == 4,
        row@[0]@ == entry.key@,
        row@[1]@ == plain_text(entry.value@),
        row@[2]@ == plain_text(entry.default@),
        row@[3]@ == (if entry.is_set {
            "set"@
        } else {
            "unset"@
        }),
{
    let mut row: Vec<String> = Vec::new();
    row.push(String::from_str(entry.key));
    row.push(entry.value.plain());
    row.push(entry.default.plain());
    if entry.is_set {
        row.push(String::from_str("set"));
    } else {
        row.push(String::from_str("unset"));
    }
    row
}

pub open spec fn bool_text(value: bool) -> Seq<char> {
    if value {
        "true"@
    } else {
        "false"@
    }
}

/// The tab-separated plain record of one port: port, state, whether it is
/// in use, key, directory and UTC expiration, absent fields shown as `-`.
pub open spec fn info_record(info: PortInfo, expires: Option<Seq<char>>) -> Seq<char> {
    decimal_text(info.port as nat) + seq!['\t'] + info.state@ + seq!['\t'] + bool_text(info.in_use)
        + seq!['\t'] + or_dash(key_view(info.key)) + seq!['\t'] + or_dash(key_view(info.directory))
        + seq!['\t'] + or_dash(expires)
}

fn timestamp_well_formed(t: &Timestamp) -> (ok: bool)
    ensures
        ok == t.well_formed(),
{
    -MAX_OFFSET_SECONDS <= t.offset_seconds && t.offset_seconds <= MAX_OFFSET_SECONDS && {
        let local_limit_low = MIN_LOCAL_NANOS - t.offset_seconds as i128 * NANOS_PER_SECOND;
        let local_limit_high = MAX_LOCAL_NANOS - t.offset_seconds as i128 * NANOS_PER_SECOND;
        local_limit_low <= t.unix_nanos && t.unix_nanos <= local_limit_high
    }
}

/// The plain record of one port, its expiration in RFC 3339. Fails with
/// `timestamp_failed` when the expiration cannot be written.
pub fn port_info_line(info: &PortInfo) -> (line: PortaResult<String>)
    ensures
        match line {
            Ok(text) => match info.expires_at {
                Some(t) => {
                    &&& t.well_formed()
                    &&& timestamp_text(t) matches Ok(written) && text@ == info_record(
                        *info,
                        Some(written),
                    )
                },
                None => text@ == info_record(*info, None),
            },
            Err(error) => {
                &&& info.expires_at matches Some(t)
                &&& has_code(error, "timestamp_failed"@, 3)
                &&& if t.well_formed() {
                    timestamp_text(t) == Err::<Seq<char>, Seq<char>>(error.message@)
                } else {
                    error.message@ == "timestamp could not be formatted"@
                }
            },
        },
{
    let expires = match &info.expires_at {
        Some(t) => {
            if !timestamp_well_formed(t) {
                return Err(
                    PortaError::infrastructure(
                        "timestamp_failed",
                        String::from_str("timestamp could not be formatted"),
                    ),
                );
            }
            match rfc3339_of(t) {
                Ok(text) => Some(text),
                Err(message) => {
                    return Err(PortaError::infrastructure("timestamp_failed", message));
                },
            }
        },
        None => None,
    };
    let mut text = decimal_string(info.port as u64);
    push_char(&mut text, '\t');
    append_chars(&mut text, info.state.as_str());
    push_char(&mut text, '\t');
    if info.in_use {
        append_chars(&mut text, "true");
    } else {
        append_chars(&mut text, "false");
    }
    push_char(&mut text, '\t');
    match &info.key {
        Some(key) => append_chars(&mut text, key.as_str()),
        None => push_char(&mut text, '-'),
    }
    push_char(&mut text, '\t');
    match &info.directory {
        Some(directory) => append_chars(&mut text, directory.as_str()),
        None => push_char(&mut text, '-'),
    }
    push_char(&mut text, '\t');
    match &expires {
        Some(value) => append_chars(&mut text, value.as_str()),
        None => push_char(&mut text, '-'),
    }
    assert(text@ =~= info_record(*info, key_view(expires)));
    Ok(text)
}

} // verus!
