//! The decisions of the command-line companion: argument lists, where a
//! command's text comes from, how the running server is found, how a tool
//! reply and an HTTP failure are read, and what the stdio bridge answers.
use crate::pipeline::{is_blank, json_string_field, json_string_field_of};
use crate::prompt::{trim, trim_chars};
use crate::text::{eq_ignore_ascii_case, eq_ignore_ascii_case_spec, chars_of, decimal, push_decimal, string_of};
use vstd::prelude::*;

verus! {

/// The kept items of a comma-separated list, `cur` holding the item read
/// so far: every item is trimmed and empty ones are dropped.
pub open spec fn csv_from(s: Seq<char>, cur: Seq<char>) -> Seq<Seq<char>>
    decreases s.len(),
{
    if s.len() == 0 {
        keep_item(cur)
    } else if s[0] == ',' {
        keep_item(cur) + csv_from(s.drop_first(), Seq::empty())
    } else {
        csv_from(s.drop_first(), cur.push(s[0]))
    }
}

pub open spec fn keep_item(cur: Seq<char>) -> Seq<Seq<char>> {
    if trim(cur).len() > 0 {
        seq![trim(cur)]
    } else {
        Seq::empty()
    }
}

fn keep(cur: &Vec<char>, out: &mut Vec<String>)
    ensures
        final(out)@.map_values(|x: String| x@) == old(out)@.map_values(|x: String| x@) + keep_item(cur@),
{
    let t = trim_chars(cur.as_slice());
    let ghost before = out@.map_values(|x: String| x@);
    if t.len() > 0 {
        out.push(string_of(t.as_slice()));
        proof {
            assert(out@.map_values(|x: String| x@) =~= before + keep_item(cur@));
        }
    } else {
        proof {
            assert(before + keep_item(cur@) =~= before);
        }
    }
}

/// Split a comma-separated list into its trimmed, non-empty items.
pub fn csv(s: &str) -> (r: Vec<String>)
    ensures
        r@.map_values(|x: String| x@) == csv_from(s@, Seq::empty()),
{
    let c = chars_of(s);
    let mut out: Vec<String> = Vec::new();
    let mut cur: Vec<char> = Vec::new();
    let mut i: usize = 0;
    let ghost goal = csv_from(s@, Seq::empty());
    proof {
        assert(c@.subrange(0, c@.len() as int) =~= c@);
        assert(out@.map_values(|x: String| x@) + goal =~= goal);
    }
    while i < c.len()
        invariant
            c@ == s@,
            i <= c@.len(),
            goal == csv_from(s@, Seq::empty()),
            out@.map_values(|x: String| x@) + csv_from(c@.subrange(i as int, c@.len() as int), cur@)
                == goal,
        decreases c@.len() - i,
    {
        let ghost rest = c@.subrange(i as int, c@.len() as int);
        proof {
            assert(rest[0] == c@[i as int]);
            assert(rest.drop_first() =~= c@.subrange(i as int + 1, c@.len() as int));
        }
        if c[i] == ',' {
            let ghost before = out@.map_values(|x: String| x@);
            let ghost cur_old = cur@;
            keep(&cur, &mut out);
            cur.clear();
            proof {
                assert(cur@ =~= Seq::<char>::empty());
                assert(before + (keep_item(cur_old) + csv_from(rest.drop_first(), Seq::empty())) =~= (
                before + keep_item(cur_old)) + csv_from(rest.drop_first(), Seq::empty()));
            }
        } else {
            cur.push(c[i]);
        }
        i = i + 1;
    }
    proof {
        assert(c@.subrange(c@.len() as int, c@.len() as int) =~= Seq::<char>::empty());
    }
    let ghost before = out@.map_values(|x: String| x@);
    keep(&cur, &mut out);
    out
}

/// The part of a path after its last `.` (the whole path when it has
/// none).
pub open spec fn after_last_dot(s: Seq<char>) -> Seq<char>
    decreases s.len(),
{
    if s.len() == 0 {
        s
    } else if s.last() == '.' {
        Seq::empty()
    } else {
        after_last_dot(s.drop_last()).push(s.last())
    }
}

/// The MIME type of an attached image, by its extension (any case).
pub open spec fn image_mime_spec(path: Seq<char>) -> Seq<char> {
    let ext = after_last_dot(path);
    if eq_ignore_ascii_case_spec(ext, "png"@) {
        "image/png"@
    } else if eq_ignore_ascii_case_spec(ext, "jpg"@) || eq_ignore_ascii_case_spec(ext, "jpeg"@) {
        "image/jpeg"@
    } else if eq_ignore_ascii_case_spec(ext, "gif"@) {
        "image/gif"@
    } else if eq_ignore_ascii_case_spec(ext, "webp"@) {
        "image/webp"@
    } else {
        "application/octet-stream"@
    }
}

fn extension_of(path: &str) -> (r: String)
    ensures
        r@ == after_last_dot(path@),
{
    let c = chars_of(path);
    let mut i: usize = c.len();
    proof {
        assert(c@.subrange(0, i as int) =~= c@);
    }
    while i > 0 && c[i - 1] != '.'
        invariant
            c@ == path@,
            i <= c@.len(),
            after_last_dot(path@) == after_last_dot(c@.subrange(0, i as int)) + c@.subrange(
                i as int,
                c@.len() as int,
            ),
        decreases i,
    {
        proof {
            let p = c@.subrange(0, i as int);
            assert(p.drop_last() =~= c@.subrange(0, i as int - 1));
            assert(after_last_dot(c@.subrange(0, i as int - 1)).push(c@[i - 1]) + c@.subrange(
                i as int,
                c@.len() as int,
            ) =~= after_last_dot(c@.subrange(0, i as int - 1)) + c@.subrange(
                i as int - 1,
                c@.len() as int,
            ));
        }
        i = i - 1;
    }
    proof {
        if i == 0 {
            assert(c@.subrange(0, 0) =~= Seq::<char>::empty());
        }
        assert(Seq::<char>::empty() + c@.subrange(i as int, c@.len() as int) =~= c@.subrange(
            i as int,
            c@.len() as int,
        ));
    }
    let mut s = String::new();
    crate::text::push_chars(&mut s, c.as_slice(), i, c.len());
    proof {
        assert(s@ =~= c@.subrange(i as int, c@.len() as int));
    }
    s
}

pub fn image_mime(path: &str) -> (r: &'static str)
    ensures
        r@ == image_mime_spec(path@),
{
    let ext = extension_of(path);
    let e = ext.as_str();
    if eq_ignore_ascii_case(e, "png") {
        "image/png"
    } else if eq_ignore_ascii_case(e, "jpg") || eq_ignore_ascii_case(e, "jpeg") {
        "image/jpeg"
    } else if eq_ignore_ascii_case(e, "gif") {
        "image/gif"
    } else if eq_ignore_ascii_case(e, "webp") {
        "image/webp"
    } else {
        "application/octet-stream"
    }
}

/// The base64 digit for `v < 64` (standard alphabet).
pub open spec fn b64_digit(v: int) -> char {
    if v < 26 {
        ((65 + v) as u32) as char
    } else if v < 52 {
        ((97 + v - 26) as u32) as char
    } else if v < 62 {
        ((48 + v - 52) as u32) as char
    } else if v == 62 {
        '+'
    } else {
        '/'
    }
}

/// Standard base64 with `=` padding: every three bytes become four digits.
pub open spec fn base64(b: Seq<u8>) -> Seq<char>
    decreases b.len(),
{
    if b.len() == 0 {
        Seq::empty()
    } else {
        let x = b[0] as int;
        if b.len() == 1 {
            seq![b64_digit(x / 4), b64_digit((x % 4) * 16), '=', '=']
        } else {
            let y = b[1] as int;
            if b.len() == 2 {
                seq![b64_digit(x / 4), b64_digit((x % 4) * 16 + y / 16), b64_digit((y % 16) * 4), '=']
            } else {
                let z = b[2] as int;
                seq![
                    b64_digit(x / 4),
                    b64_digit((x % 4) * 16 + y / 16),
                    b64_digit((y % 16) * 4 + z / 64),
                    b64_digit(z % 64),
                ] + base64(b.subrange(3, b.len() as int))
            }
        }
    }
}

fn digit(v: u8) -> (r: char)
    requires
        v < 64,
    ensures
        r == b64_digit(v as int),
{
    let table: [char; 64] = [
        'A', 'B', 'C', 'D', 'E', 'F', 'G', 'H', 'I', 'J', 'K', 'L', 'M', 'N', 'O', 'P', 'Q', 'R',
        'S', 'T', 'U', 'V', 'W', 'X', 'Y', 'Z', 'a', 'b', 'c', 'd', 'e', 'f', 'g', 'h', 'i', 'j',
        'k', 'l', 'm', 'n', 'o', 'p', 'q', 'r', 's', 't', 'u', 'v', 'w', 'x', 'y', 'z', '0', '1',
        '2', '3', '4', '5', '6', '7', '8', '9', '+', '/',
    ];
    table[v as usize]
}

/// Base64-encode `bytes` (see [`base64`]).
pub fn base64_encode(bytes: &[u8]) -> (r: String)
    ensures
        r@ == base64(bytes@),
{
    let mut out = String::new();
    let mut i: usize = 0;
    proof {
        assert(bytes@.subrange(0, bytes@.len() as int) =~= bytes@);
    }
    while i < bytes.len()
        invariant
            i <= bytes@.len(),
            out@ + base64(bytes@.subrange(i as int, bytes@.len() as int)) == base64(bytes@),
        decreases bytes@.len() - i,
    {
        let ghost rest = bytes@.subrange(i as int, bytes@.len() as int);
        let ghost before = out@;
        let n = bytes.len() - i;
        let b0 = bytes[i];
        proof {
            assert(rest[0] == b0);
        }
        if n == 1 {
            out.push(digit(b0 / 4));
            out.push(digit((b0 % 4) * 16));
            out.push('=');
            out.push('=');
            proof {
                assert(out@ =~= before + base64(rest));
                assert(bytes@.subrange(bytes@.len() as int, bytes@.len() as int) =~= Seq::<u8>::empty());
            }
            i = bytes.len();
        } else if n == 2 {
            let b1 = bytes[i + 1];
            proof {
                assert(rest[1] == b1);
            }
            out.push(digit(b0 / 4));
            out.push(digit((b0 % 4) * 16 + b1 / 16));
            out.push(digit((b1 % 16) * 4));
            out.push('=');
            proof {
                assert(out@ =~= before + base64(rest));
                assert(bytes@.subrange(bytes@.len() as int, bytes@.len() as int) =~= Seq::<u8>::empty());
            }
            i = bytes.len();
        } else {
            let b1 = bytes[i + 1];
            let b2 = bytes[i + 2];
            proof {
                assert(rest[1] == b1);
                assert(rest[2] == b2);
                assert(rest.subrange(3, rest.len() as int) =~= bytes@.subrange(i + 3, bytes@.len() as int));
            }
            out.push(digit(b0 / 4));
            out.push(digit((b0 % 4) * 16 + b1 / 16));
            out.push(digit((b1 % 16) * 4 + b2 / 64));
            out.push(digit(b2 % 64));
            proof {
                let (x, y, z) = (b0 as int, b1 as int, b2 as int);
                let four = seq![
                    b64_digit(x / 4),
                    b64_digit((x % 4) * 16 + y / 16),
                    b64_digit((y % 16) * 4 + z / 64),
                    b64_digit(z % 64),
                ];
                assert(out@ =~= before + four);
                assert(base64(rest) == four + base64(bytes@.subrange(i + 3, bytes@.len() as int)));
                assert(before + (four + base64(bytes@.subrange(i + 3, bytes@.len() as int))) =~= out@
                    + base64(bytes@.subrange(i + 3, bytes@.len() as int)));
            }
            i = i + 3;
        }
    }
    proof {
        assert(bytes@.subrange(i as int, bytes@.len() as int) =~= Seq::<u8>::empty());
        assert(out@ + Seq::<char>::empty() =~= out@);
    }
    out
}

/// An attached image as a data URL: its MIME type by extension, then its
/// bytes in base64.
pub fn image_data_url(path: &str, bytes: &[u8]) -> (r: String)
    ensures
        r@ == "data:"@ + image_mime_spec(path@) + ";base64,"@ + base64(bytes@),
{
    let mut s = String::new();
    s.append("data:");
    s.append(image_mime(path));
    s.append(";base64,");
    let b = base64_encode(bytes);
    s.append(b.as_str());
    s
}

/// Where a command's text comes from.
#[derive(Clone, Debug)]
pub enum TextSource {
    /// Given on the command line.
    Inline(String),
    /// Read from this file.
    File(String),
    /// Not given.
    Absent,
}

/// Inline text wins over a file; neither is `Absent`.
pub fn read_text(inline: &Option<String>, file: &Option<String>) -> (r: TextSource)
    ensures
        match inline {
            Some(t) => (r matches TextSource::Inline(x) && x@ == t@),
            None => match file {
                Some(p) => (r matches TextSource::File(x) && x@ == p@),
                None => r is Absent,
            },
        },
{
    match inline {
        Some(t) => TextSource::Inline(t.clone()),
        None => match file {
            Some(p) => TextSource::File(p.clone()),
            None => TextSource::Absent,
        },
    }
}

/// The process exit code of a command: 0 on success, 1 on an error (which
/// is printed as `error: <message>`).
pub fn exit_code(outcome: &Result<(), String>) -> (r: (i32, Option<String>))
    ensures
        match outcome {
            Ok(()) => r.0 == 0 && r.1 is None,
            Err(e) => r.0 == 1 && (r.1 matches Some(l) && l@ == "error: "@ + e@),
        },
{
    match outcome {
        Ok(()) => (0, None),
        Err(e) => {
            let mut l = String::new();
            l.append("error: ");
            l.append(e.as_str());
            (1, Some(l))
        },
    }
}

/// The error when the server is explicitly disabled.
pub const SERVER_DISABLED: &'static str = "Handy's MCP/CLI server is disabled. Enable it in Advanced → MCP & CLI.";

/// The error when a started app never brings the server up.
pub const SERVER_UNREACHABLE: &'static str = "Handy's MCP/CLI server is not reachable. Enable it in Advanced → MCP & CLI.";

/// Polls (every 500 ms) for the server of an app that was just started.
pub const SERVER_POLLS: u32 = 40;

/// The next move in finding the running server.
#[derive(Clone, Copy, Debug, PartialEq, Eq, Structural)]
pub enum ServerStep {
    /// Use the server the sidecar file names.
    Use,
    /// Fail with this error.
    Fail(bool),
    /// Start the app hidden, then poll.
    Launch,
    /// Sleep 500 ms and poll again.
    Poll,
}

/// Before starting anything: a healthy server from the sidecar is used; an
/// app whose settings disable the server is not started (it would never
/// host one and be left orphaned); otherwise the app is started. `Fail(true)`
/// is the disabled error.
pub fn ensure_server_start(sidecar_healthy: bool, mcp_enabled: Option<bool>) -> (r: ServerStep)
    ensures
        r == if sidecar_healthy {
            ServerStep::Use
        } else if mcp_enabled == Some(false) {
            ServerStep::Fail(true)
        } else {
            ServerStep::Launch
        },
{
    if sidecar_healthy {
        ServerStep::Use
    } else if let Some(false) = mcp_enabled {
        ServerStep::Fail(true)
    } else {
        ServerStep::Launch
    }
}

/// After poll number `attempt` (1-based) of a started app: a healthy server
/// is used, else poll again until [`SERVER_POLLS`] polls have failed, then
/// give up with the unreachable error (`Fail(false)`).
pub fn ensure_server_poll(attempt: u32, healthy: bool) -> (r: ServerStep)
    ensures
        r == if healthy {
            ServerStep::Use
        } else if attempt < SERVER_POLLS {
            ServerStep::Poll
        } else {
            ServerStep::Fail(false)
        },
{
    if healthy {
        ServerStep::Use
    } else if attempt < SERVER_POLLS {
        ServerStep::Poll
    } else {
        ServerStep::Fail(false)
    }
}

/// The error of an HTTP reply with a failure status: `HTTP <code>: <body>`.
pub fn http_status_error(code: u16, body: &str) -> (r: String)
    ensures
        r@ == "HTTP "@ + decimal(code as nat) + ": "@ + body@,
{
    let mut s = String::new();
    s.append("HTTP ");
    push_decimal(&mut s, code as u64);
    s.append(": ");
    s.append(body);
    s
}

/// The boolean value of field `field` of the JSON object `text` (`None`
/// when `text` is not JSON or the field is missing or not a boolean), as
/// serde_json reads it.
pub uninterp spec fn json_bool_field(text: Seq<char>, field: Seq<char>) -> Option<bool>;

/// `serde_json::from_str::<Value>(text)`, then the field `field` as a
/// boolean. Only names the result as a function of the two strings.
#[verifier::external_body]
fn json_bool_field_of(text: &str, field: &str) -> (r: Option<bool>)
    ensures
        r == json_bool_field(text@, field@),
{
    match serde_json::from_str::<serde_json::Value>(text) {
        Ok(value) => match value.get(field) {
            Some(v) => v.as_bool(),
            None => None,
        },
        Err(_) => None,
    }
}

/// The compact JSON text of field `field` of the JSON object `text`
/// (`None` when `text` is not JSON or the field is missing), as serde_json
/// writes it.
pub uninterp spec fn json_field_text(text: Seq<char>, field: Seq<char>) -> Option<Seq<char>>;

/// `serde_json::from_str::<Value>(text)`, then the field `field` written
/// back with `Value::to_string`. Only names the result as a function of the
/// two strings.
#[verifier::external_body]
fn json_field_text_of(text: &str, field: &str) -> (r: Option<String>)
    ensures
        match r {
            Some(s) => json_field_text(text@, field@) == Some(s@),
            None => json_field_text(text@, field@) is None,
        },
{
    match serde_json::from_str::<serde_json::Value>(text) {
        Ok(value) => value.get(field).map(|v| v.to_string()),
        Err(_) => None,
    }
}

/// The error serde_json reports for text that is not JSON (`None` for
/// valid JSON).
pub uninterp spec fn json_parse_error(text: Seq<char>) -> Option<Seq<char>>;

/// `serde_json::from_str::<Value>(text)`, its error written with
/// `to_string`. Only names the result as a function of the text.
#[verifier::external_body]
fn json_parse_error_of(text: &str) -> (r: Option<String>)
    ensures
        match r {
            Some(e) => json_parse_error(text@) == Some(e@),
            None => json_parse_error(text@) is None,
        },
{
    serde_json::from_str::<serde_json::Value>(text).err().map(|e| e.to_string())
}

/// The reply of a tool call: the parse error of a body that is not JSON;
/// its `result` (JSON text, `null` when absent) when `ok` is true;
/// otherwise the `error` string, or `unknown error`.
pub open spec fn tool_reply_spec(body: Seq<char>) -> Result<Seq<char>, Seq<char>> {
    if let Some(e) = json_parse_error(body) {
        Err(e)
    } else if json_bool_field(body, "ok"@) == Some(true) {
        Ok(
            match json_field_text(body, "result"@) {
                Some(t) => t,
                None => "null"@,
            },
        )
    } else {
        Err(
            match json_string_field(body, "error"@) {
                Some(e) => e,
                None => "unknown error"@,
            },
        )
    }
}

pub fn tool_reply(body: &str) -> (r: Result<String, String>)
    ensures
        match (r, tool_reply_spec(body@)) {
            (Ok(a), Ok(b)) => a@ == b,
            (Err(a), Err(b)) => a@ == b,
            _ => false,
        },
{
    if let Some(e) = json_parse_error_of(body) {
        return Err(e);
    }
    if let Some(true) = json_bool_field_of(body, "ok") {
        match json_field_text_of(body, "result") {
            Some(t) => Ok(t),
            None => Ok("null".to_owned()),
        }
    } else {
        match json_string_field_of(body, "error") {
            Some(e) => Err(e),
            None => Err("unknown error".to_owned()),
        }
    }
}

/// The line a token count prints: the `tokens` field of the tool's result
/// (JSON text) as JSON text, or nothing when the result has none.
pub fn token_count_line(result: &str) -> (r: String)
    ensures
        r@ == match json_field_text(result@, "tokens"@) {
            Some(t) => t,
            None => Seq::<char>::empty(),
        },
{
    match json_field_text_of(result, "tokens") {
        Some(t) => t,
        None => String::new(),
    }
}

/// The report a model test prints or saves: the `report` string of the
/// tool's result (JSON text), or the empty text when it has none.
pub fn model_test_report(result: &str) -> (r: String)
    ensures
        r@ == match json_string_field(result@, "report"@) {
            Some(t) => t,
            None => Seq::<char>::empty(),
        },
{
    match json_string_field_of(result, "report") {
        Some(t) => t,
        None => String::new(),
    }
}

/// The stdio bridge forwards every line that is not blank.
pub fn bridge_forwards(line: &str) -> (r: bool)
    ensures
        r == (trim(line@).len() > 0),
{
    !is_blank(line)
}

/// The line the bridge writes for a server reply: the reply itself, none
/// for the empty reply to a notification.
pub fn bridge_reply(resp: &str) -> (r: Option<String>)
    ensures
        match r {
            Some(l) => trim(resp@).len() > 0 && l@ == resp@,
            None => trim(resp@).len() == 0,
        },
{
    if is_blank(resp) {
        None
    } else {
        Some(resp.to_owned())
    }
}

/// A lower-case hexadecimal digit.
pub open spec fn hex_digit(v: int) -> char {
    seq!['0', '1', '2', '3', '4', '5', '6', '7', '8', '9', 'a', 'b', 'c', 'd', 'e', 'f'][v]
}

/// How serde_json writes one character inside a JSON string: `"` and `\`
/// and the control characters with a short escape (`\b \t \n \f \r`) are
/// escaped so, the other control characters below U+0020 as `\u00XX`, and
/// every other character as itself.
pub open spec fn json_char_escape(c: char) -> Seq<char> {
    if c == '"' {
        seq!['\\', '"']
    } else if c == '\\' {
        seq!['\\', '\\']
    } else if c == '\u{8}' {
        seq!['\\', 'b']
    } else if c == '\t' {
        seq!['\\', 't']
    } else if c == '\n' {
        seq!['\\', 'n']
    } else if c == '\u{c}' {
        seq!['\\', 'f']
    } else if c == '\r' {
        seq!['\\', 'r']
    } else if (c as u32) < 0x20 {
        seq!['\\', 'u', '0', '0', hex_digit((c as u32) as int / 16), hex_digit((c as u32) as int % 16)]
    } else {
        seq![c]
    }
}

/// The escaped characters of `s`, one after another.
pub open spec fn json_escaped(s: Seq<char>) -> Seq<char>
    decreases s.len(),
{
    if s.len() == 0 {
        Seq::empty()
    } else {
        json_escaped(s.drop_last()) + json_char_escape(s.last())
    }
}

/// `s` as a JSON string literal, as serde_json writes it.
pub open spec fn json_quoted(s: Seq<char>) -> Seq<char> {
    seq!['"'] + json_escaped(s) + seq!['"']
}

fn push_char_escape(out: &mut String, c: char)
    ensures
        final(out)@ == old(out)@ + json_char_escape(c),
{
    let hex: [char; 16] = ['0', '1', '2', '3', '4', '5', '6', '7', '8', '9', 'a', 'b', 'c', 'd', 'e', 'f'];
    let v = c as u32;
    if c == '"' {
        out.push('\\');
        out.push('"');
    } else if c == '\\' {
        out.push('\\');
        out.push('\\');
    } else if c == '\u{8}' {
        out.push('\\');
        out.push('b');
    } else if c == '\t' {
        out.push('\\');
        out.push('t');
    } else if c == '\n' {
        out.push('\\');
        out.push('n');
    } else if c == '\u{c}' {
        out.push('\\');
        out.push('f');
    } else if c == '\r' {
        out.push('\\');
        out.push('r');
    } else if v < 0x20 {
        out.push('\\');
        out.push('u');
        out.push('0');
        out.push('0');
        out.push(hex[(v / 16) as usize]);
        out.push(hex[(v % 16) as usize]);
        proof {
            assert(hex@ =~= seq!['0', '1', '2', '3', '4', '5', '6', '7', '8', '9', 'a', 'b', 'c', 'd', 'e', 'f']);
        }
    } else {
        out.push(c);
    }
    proof {
        assert(out@ =~= old(out)@ + json_char_escape(c));
    }
}

/// `s` as a JSON string literal, escaped as serde_json escapes it.
fn json_quote(s: &str) -> (r: String)
    ensures
        r@ == json_quoted(s@),
{
    let chars = chars_of(s);
    let mut out = String::new();
    out.push('"');
    let mut i: usize = 0;
    while i < chars.len()
        invariant
            i <= chars@.len(),
            chars@ == s@,
            out@ == seq!['"'] + json_escaped(chars@.subrange(0, i as int)),
        decreases chars@.len() - i,
    {
        proof {
            let t = chars@.subrange(0, i as int + 1);
            assert(t.drop_last() =~= chars@.subrange(0, i as int));
        }
        push_char_escape(&mut out, chars[i]);
        i = i + 1;
        proof {
            assert(out@ =~= seq!['"'] + json_escaped(chars@.subrange(0, i as int)));
        }
    }
    out.push('"');
    proof {
        assert(chars@.subrange(0, chars@.len() as int) =~= chars@);
        assert(out@ =~= json_quoted(s@));
    }
    out
}

/// The JSON-RPC error object answering a failed request: with the
/// request's id, code -32000 and the failure as message, keys in the order
/// serde_json writes them.
pub open spec fn rpc_error_text(id: Seq<char>, message: Seq<char>) -> Seq<char> {
    "{\"error\":{\"code\":-32000,\"message\":"@ + json_quoted(message) + "},\"id\":"@ + id
        + ",\"jsonrpc\":\"2.0\"}"@
}

/// The line the bridge writes when forwarding `line` failed with `err`:
/// a JSON-RPC error echoing the request's id, none for a request without
/// one (a notification).
pub fn bridge_error(line: &str, err: &str) -> (r: Option<String>)
    ensures
        match json_field_text(line@, "id"@) {
            Some(id) => (r matches Some(t) && t@ == rpc_error_text(id, err@)),
            None => r is None,
        },
{
    match json_field_text_of(line, "id") {
        Some(id) => {
            let mut s = String::new();
            s.append("{\"error\":{\"code\":-32000,\"message\":");
            let q = json_quote(err);
            s.append(q.as_str());
            s.append("},\"id\":");
            s.append(id.as_str());
            s.append(",\"jsonrpc\":\"2.0\"}");
            Some(s)
        },
        None => None,
    }
}

} // verus!
