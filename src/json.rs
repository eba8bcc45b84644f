use vstd::prelude::*;
use vstd::string::*;
use crate::decimal::{decimal_digits, decimal_string, digit_char};
use crate::error::StatemapError;

verus! {

#[verifier::external_type_specification]
#[verifier::external_body]
pub struct ExJsonError(serde_json::Error);

/// A hexadecimal digit in lower case (`0 <= d < 16`).
pub open spec fn hex_digit(d: int) -> char {
    if d < 10 { digit_char(d) }
    else if d == 10 { 'a' }
    else if d == 11 { 'b' }
    else if d == 12 { 'c' }
    else if d == 13 { 'd' }
    else if d == 14 { 'e' }
    else { 'f' }
}

/// How one character stands inside a JSON string literal: quote and
/// backslash after a backslash, the five control characters with a short
/// escape by it, the other control characters as `\u00xx`, all else as is.
pub open spec fn escaped_char(c: char) -> Seq<char> {
    if c == '"' {
        seq!['\\', '"']
    } else if c == '\\' {
        seq!['\\', '\\']
    } else if c == '\x08' {
        seq!['\\', 'b']
    } else if c == '\t' {
        seq!['\\', 't']
    } else if c == '\n' {
        seq!['\\', 'n']
    } else if c == '\x0c' {
        seq!['\\', 'f']
    } else if c == '\r' {
        seq!['\\', 'r']
    } else if (c as u32) < 32 {
        seq!['\\', 'u', '0', '0', hex_digit((c as u32) as int / 16), hex_digit((c as u32) as int % 16)]
    } else {
        seq![c]
    }
}

/// The characters of `s`, each escaped.
pub open spec fn json_escaped(s: Seq<char>) -> Seq<char>
    decreases s.len(),
{
    if s.len() == 0 {
        Seq::empty()
    } else {
        json_escaped(s.drop_last()) + escaped_char(s.last())
    }
}

/// The JSON string literal of `s`.
pub open spec fn json_quoted(s: Seq<char>) -> Seq<char> {
    seq!['"'] + json_escaped(s) + seq!['"']
}

/// Relies on `serde_json::to_string` on a `str`: the JSON string literal of
/// `s`. Serializing a `str` into the `Vec<u8>` it writes to cannot fail.
#[verifier::external_body]
fn quote(s: &str) -> (r: Result<String, serde_json::Error>)
    ensures
        r is Ok,
        r matches Ok(q) ==> q@ == json_quoted(s@),
{
    serde_json::to_string(s)
}

/// `s` as a JSON string literal.
pub fn json_string(s: &str) -> (r: Result<String, StatemapError>)
    ensures
        r is Ok,
        r matches Ok(q) ==> q@ == json_quoted(s@),
{
    match quote(s) {
        Ok(q) => Ok(q),
        Err(_) => Err(StatemapError::SerializationFailure),
    }
}

/// The JSON text of an optional string: `null`, or the string's literal.
pub open spec fn optional_text(o: Option<Seq<char>>) -> Seq<char> {
    match o {
        Some(t) => json_quoted(t),
        None => "null"@,
    }
}

/// A data record around already-encoded entity and tag texts.
pub open spec fn datum_frame(time: nat, entity: Seq<char>, state: nat, tag: Seq<char>) -> Seq<char> {
    "{\"time\":\""@ + decimal_digits(time) + "\",\"entity\":"@ + entity + ",\"state\":"@
        + decimal_digits(state) + ",\"tag\":"@ + tag + "}"@
}

/// The data record of one state change: `time` written as a decimal string.
pub open spec fn datum_text(time: nat, entity: Seq<char>, state: nat, tag: Option<Seq<char>>) -> Seq<char> {
    datum_frame(time, json_quoted(entity), state, optional_text(tag))
}

/// The entry of the state registry for an already-encoded state name.
pub open spec fn state_entry_frame(name: Seq<char>, value: nat) -> Seq<char> {
    name + ":{\"color\":null,\"value\":"@ + decimal_digits(value) + "}"@
}

/// The first `n` entries of the state registry, separated by commas; the
/// value of each is its position.
pub open spec fn states_frame(names: Seq<Seq<char>>, n: nat) -> Seq<char>
    decreases n,
{
    if n == 0 {
        Seq::empty()
    } else {
        let sep = if n > 1 { ","@ } else { Seq::empty() };
        states_frame(names, (n - 1) as nat) + sep + state_entry_frame(names[n - 1], (n - 1) as nat)
    }
}

/// The header record around already-encoded texts.
pub open spec fn header_frame(
    sec: nat,
    nsec: nat,
    title: Seq<char>,
    host: Seq<char>,
    kind: Seq<char>,
    names: Seq<Seq<char>>,
) -> Seq<char> {
    "{\"start\":["@ + decimal_digits(sec) + ","@ + decimal_digits(nsec) + "],\"title\":"@ + title
        + ",\"host\":"@ + host + ",\"entityKind\":"@ + kind + ",\"states\":{"@
        + states_frame(names, names.len()) + "}}"@
}

/// The header record: start time, title, host, entity kind and the state
/// registry, whose names are given in the order of their codes.
pub open spec fn header_text(
    sec: nat,
    nsec: nat,
    title: Seq<char>,
    host: Option<Seq<char>>,
    kind: Option<Seq<char>>,
    names: Seq<Seq<char>>,
) -> Seq<char> {
    header_frame(
        sec,
        nsec,
        json_quoted(title),
        optional_text(host),
        optional_text(kind),
        names.map_values(|n: Seq<char>| json_quoted(n)),
    )
}

/// Writes a data record from its time, its entity's JSON literal, its state
/// code and its tag's JSON text (`null` or a literal).
pub fn datum_record(time: u64, entity: &str, state: u32, tag: &str) -> (r: String)
    ensures
        r@ == datum_frame(time as nat, entity@, state as nat, tag@),
{
    let mut s = String::new();
    s.append("{\"time\":\"");
    let t = decimal_string(time);
    s.append(t.as_str());
    s.append("\",\"entity\":");
    s.append(entity);
    s.append(",\"state\":");
    let v = decimal_string(state as u64);
    s.append(v.as_str());
    s.append(",\"tag\":");
    s.append(tag);
    s.append("}");
    assert(s@ =~= datum_frame(time as nat, entity@, state as nat, tag@));
    s
}

/// The JSON text of an optional string.
pub fn optional_json(o: &Option<String>) -> (r: Result<String, StatemapError>)
    ensures
        r matches Ok(q) ==> q@ == optional_text(
            match o {
                Some(t) => Some(t@),
                None => None,
            },
        ),
        r is Ok,
{
    match o {
        Some(t) => json_string(t.as_str()),
        None => {
            let mut s = String::new();
            s.append("null");
            assert(s@ =~= "null"@);
            Ok(s)
        },
    }
}

/// Writes the header record from its start time and already-encoded texts.
pub fn header_record(
    sec: u64,
    nsec: u64,
    title: &str,
    host: &str,
    kind: &str,
    names: &Vec<String>,
) -> (r: String)
    ensures
        r@ == header_frame(
            sec as nat,
            nsec as nat,
            title@,
            host@,
            kind@,
            names@.map_values(|n: String| n@),
        ),
{
    let ghost qn = names@.map_values(|n: String| n@);
    let mut s = String::new();
    s.append("{\"start\":[");
    let a = decimal_string(sec);
    s.append(a.as_str());
    s.append(",");
    let b = decimal_string(nsec);
    s.append(b.as_str());
    s.append("],\"title\":");
    s.append(title);
    s.append(",\"host\":");
    s.append(host);
    s.append(",\"entityKind\":");
    s.append(kind);
    s.append(",\"states\":{");
    let ghost prefix = s@;
    let mut i: usize = 0;
    while i < names.len()
        invariant
            i <= names.len(),
            qn == names@.map_values(|n: String| n@),
            s@ == prefix + states_frame(qn, i as nat),
        decreases names.len() - i,
    {
        if i > 0 {
            s.append(",");
        }
        s.append(names[i].as_str());
        s.append(":{\"color\":null,\"value\":");
        let v = decimal_string(i as u64);
        s.append(v.as_str());
        s.append("}");
        i = i + 1;
        assert(s@ =~= prefix + states_frame(qn, i as nat));
    }
    s.append("}}");
    assert(s@ =~= header_frame(sec as nat, nsec as nat, title@, host@, kind@, qn));
    s
}

} // verus!
