//! The command-line tool's logic: handing a path over to a running server,
//! and the launch agent it installs.
use vstd::prelude::*;
use vstd::utf8::encode_utf8;
use crate::api::{find_char, first_index_of, lemma_first_index_of};
use crate::text::{chars_of, contains_seq, decimal, decimal_string, str_contains, string_from_chars, sub_chars, trim, trim_range};

verus! {

/// A hexadecimal digit of a number below 16, lowercase.
pub open spec fn hex_digit(n: int) -> char {
    "0123456789abcdef"@[n]
}

/// How JSON writes one character of a string: a quote and a backslash are
/// escaped with a backslash; backspace, tab, line feed, form feed and carriage
/// return by their short escapes; the other characters below U+0020 as
/// `\u00XX`; every other character as it is.
pub open spec fn json_escape(c: char) -> Seq<char> {
    if c == '"' {
        seq!['\\', '"']
    } else if c == '\\' {
        seq!['\\', '\\']
    } else if c == '\u{8}' {
        seq!['\\', 'b']
    } else if c == '\t' {
        seq!['\\', 't']
    } else if c == '\n' {
        seq!['\\', 'n']
    } else if c == '\u{c}' {
        seq!['\\', 'f']
    } else if c == '\r' {
        seq!['\\', 'r']
    } else if (c as u32) < 0x20 {
        seq!['\\', 'u', '0', '0', hex_digit((c as int) / 16), hex_digit((c as int) % 16)]
    } else {
        seq![c]
    }
}

/// The characters of a string escaped for JSON, one after the other.
pub open spec fn json_escaped(s: Seq<char>) -> Seq<char>
    decreases s.len(),
{
    if s.len() == 0 {
        Seq::empty()
    } else {
        json_escape(s[0]) + json_escaped(s.skip(1))
    }
}

/// `s` written as a JSON string literal: in quotes, escaped.
pub open spec fn json_string_literal(s: Seq<char>) -> Seq<char> {
    seq!['"'] + json_escaped(s) + seq!['"']
}

/// `serde_json::to_string` of a string, which writes the JSON string literal
/// (it cannot fail on a string).
#[verifier::external_body]
pub(crate) fn to_json_string(s: &str) -> (r: String)
    ensures
        r@ == json_string_literal(s@),
{
    serde_json::to_string(s).unwrap_or_default()
}

/// The JSON body of a hand-over request: an object naming the path.
pub open spec fn handoff_body_of(path: Seq<char>) -> Seq<char> {
    "{\"path\":"@ + json_string_literal(path) + "}"@
}

/// The JSON body of a hand-over request.
pub fn handoff_body(path: &str) -> (r: String)
    ensures
        r@ == handoff_body_of(path@),
{
    let mut r = String::from_str("{\"path\":");
    r.append(to_json_string(path).as_str());
    r.append("}");
    r
}

/// The HTTP request that asks the server on `port` to switch to `path`; the
/// content length counts the body's UTF-8 bytes.
pub open spec fn handoff_request_of(path: Seq<char>, port: u16) -> Seq<char> {
    let body = handoff_body_of(path);
    "POST /api/workspace/switch HTTP/1.1\r\nHost: 127.0.0.1:"@ + decimal(port as nat)
        + "\r\nContent-Type: application/json\r\nContent-Length: "@ + decimal((encode_utf8(body).len() as usize) as nat)
        + "\r\nConnection: close\r\n\r\n"@ + body
}

/// The HTTP request that asks the server on `port` to switch to `path`.
pub fn handoff_request(path: &str, port: u16) -> (r: String)
    ensures
        r@ == handoff_request_of(path@, port),
{
    let body = handoff_body(path);
    let len = body.as_str().len();
    let mut r = String::from_str("POST /api/workspace/switch HTTP/1.1\r\nHost: 127.0.0.1:");
    r.append(decimal_string(port as u64).as_str());
    r.append("\r\nContent-Type: application/json\r\nContent-Length: ");
    r.append(decimal_string(len as u64).as_str());
    r.append("\r\nConnection: close\r\n\r\n");
    r.append(body.as_str());
    r
}

/// Whether the server's reply reports a successful switch.
pub fn handoff_succeeded(response: &str) -> (r: bool)
    ensures
        r == contains_seq(response@, "\"success\":true"@),
{
    str_contains(response, "\"success\":true")
}

/// The label of the launch agent.
pub open spec fn launchd_label() -> Seq<char> {
    "com.beardedgiant.mdlive"@
}

/// The launch agent's property list: run `exe` on the host and port given,
/// without opening a browser, at login, logging to `/tmp`.
pub open spec fn plist_of(exe: Seq<char>, hostname: Seq<char>, port: u16) -> Seq<char> {
    "<?xml version=\"1.0\" encoding=\"UTF-8\"?>\n<!DOCTYPE plist PUBLIC \"-//Apple//DTD PLIST 1.0//EN\" \"http://www.apple.com/DTDs/PropertyList-1.0.dtd\">\n<plist version=\"1.0\">\n<dict>\n    <key>Label</key>\n    <string>com.beardedgiant.mdlive</string>\n    <key>ProgramArguments</key>\n    <array>\n        <string>"@
        + exe + "</string>\n        <string>-H</string>\n        <string>"@ + hostname
        + "</string>\n        <string>-p</string>\n        <string>"@ + decimal(port as nat)
        + "</string>\n        <string>--no-open</string>\n    </array>\n    <key>RunAtLoad</key>\n    <true/>\n    <key>StandardOutPath</key>\n    <string>/tmp/mdlive.log</string>\n    <key>StandardErrorPath</key>\n    <string>/tmp/mdlive.err</string>\n</dict>\n</plist>"@
}

/// The launch agent's property list.
pub fn launch_agent_plist(exe: &str, hostname: &str, port: u16) -> (r: String)
    ensures
        r@ == plist_of(exe@, hostname@, port),
{
    let mut r = String::from_str(
        "<?xml version=\"1.0\" encoding=\"UTF-8\"?>\n<!DOCTYPE plist PUBLIC \"-//Apple//DTD PLIST 1.0//EN\" \"http://www.apple.com/DTDs/PropertyList-1.0.dtd\">\n<plist version=\"1.0\">\n<dict>\n    <key>Label</key>\n    <string>com.beardedgiant.mdlive</string>\n    <key>ProgramArguments</key>\n    <array>\n        <string>",
    );
    r.append(exe);
    r.append("</string>\n        <string>-H</string>\n        <string>");
    r.append(hostname);
    r.append("</string>\n        <string>-p</string>\n        <string>");
    r.append(decimal_string(port as u64).as_str());
    r.append(
        "</string>\n        <string>--no-open</string>\n    </array>\n    <key>RunAtLoad</key>\n    <true/>\n    <key>StandardOutPath</key>\n    <string>/tmp/mdlive.log</string>\n    <key>StandardErrorPath</key>\n    <string>/tmp/mdlive.err</string>\n</dict>\n</plist>",
    );
    r
}

/// The lines of a text as `str::lines` gives them: split at line feeds, a
/// carriage return before a line feed dropped, no empty line after a final
/// line feed.
pub open spec fn lines_of(s: Seq<char>) -> Seq<Seq<char>>
    decreases s.len(),
{
    if s.len() == 0 {
        Seq::empty()
    } else {
        let i = first_index_of(s, '\n');
        if i < 0 || i >= s.len() {
            seq![s]
        } else {
            let l = s.take(i);
            let line = if l.len() > 0 && l.last() == '\r' {
                l.drop_last()
            } else {
                l
            };
            seq![line] + lines_of(s.skip(i + 1))
        }
    }
}

/// The status lines that mention the agent's process id, trimmed, in order.
pub open spec fn pid_lines_of(lines: Seq<Seq<char>>) -> Seq<Seq<char>>
    decreases lines.len(),
{
    if lines.len() == 0 {
        Seq::empty()
    } else {
        let l = lines[0];
        let rest = pid_lines_of(lines.skip(1));
        if contains_seq(l, "PID"@) || contains_seq(l, "pid"@) {
            seq![trim(l)] + rest
        } else {
            rest
        }
    }
}

/// The lines of `launchctl list` output that mention the process id, trimmed.
pub fn pid_lines(stdout: &str) -> (r: Vec<String>)
    ensures
        r@.map_values(|x: String| x@) == pid_lines_of(lines_of(stdout@)),
{
    let v = chars_of(stdout);
    let mut out: Vec<String> = Vec::new();
    let mut start: usize = 0;
    let pid_upper = chars_of("PID");
    let pid_lower = chars_of("pid");
    assert(v@.skip(0) =~= v@);
    assert(out@.map_values(|x: String| x@) + pid_lines_of(lines_of(v@.skip(0))) =~= pid_lines_of(lines_of(stdout@)));
    while start < v.len()
        invariant
            start <= v.len(),
            pid_upper@ == "PID"@,
            pid_lower@ == "pid"@,
            out@.map_values(|x: String| x@) + pid_lines_of(lines_of(v@.skip(start as int))) == pid_lines_of(
                lines_of(stdout@),
            ),
            v@ == stdout@,
        decreases v.len() - start,
    {
        let tail = sub_chars(v.as_slice(), start, v.len());
        proof {
            assert(tail@ =~= v@.skip(start as int));
            lemma_first_index_of(tail@, '\n');
        }
        let nl = find_char(&tail, '\n');
        let mut end = nl;
        if nl > 0 && tail[nl - 1] == '\r' && nl < tail.len() {
            end = nl - 1;
        }
        let line = sub_chars(tail.as_slice(), 0, end);
        let ghost lines = lines_of(tail@);
        proof {
            if nl < tail.len() {
                let l = tail@.take(nl as int);
                if nl > 0 && tail@[nl - 1] == '\r' {
                    assert(line@ =~= l.drop_last());
                } else {
                    assert(line@ =~= l);
                }
                assert(lines[0] == line@);
                assert(lines.skip(1) =~= lines_of(tail@.skip(nl + 1)));
                assert(tail@.skip(nl + 1) =~= v@.skip(start + nl + 1));
            } else {
                assert(line@ =~= tail@);
                assert(lines =~= seq![line@]);
            }
        }
        let keep = crate::text::contains_chars(line.as_slice(), pid_upper.as_slice())
            || crate::text::contains_chars(line.as_slice(), pid_lower.as_slice());
        let ghost before = out@;
        if keep {
            let t = trim_range(line.as_slice(), 0, line.len());
            assert(line@.subrange(0, line@.len() as int) =~= line@);
            out.push(string_from_chars(t.as_slice()));
        }
        proof {
            assert(pid_lines_of(lines) == (if keep { seq![trim(line@)] } else { Seq::empty() }) + pid_lines_of(lines.skip(1)));
        }
        if nl < tail.len() {
            proof {
                assert(out@.map_values(|x: String| x@) =~= before.map_values(|x: String| x@) + (if keep { seq![trim(line@)] } else { Seq::<Seq<char>>::empty() }));
            }
            start = start + nl + 1;
        } else {
            proof {
                assert(lines.skip(1) =~= Seq::<Seq<char>>::empty());
                assert(out@.map_values(|x: String| x@) =~= before.map_values(|x: String| x@) + (if keep { seq![trim(line@)] } else { Seq::<Seq<char>>::empty() }));
                assert(v@.skip(v.len() as int) =~= Seq::<char>::empty());
            }
            start = v.len();
        }
    }
    proof {
        assert(v@.skip(start as int) =~= Seq::<char>::empty());
        assert(out@.map_values(|x: String| x@) + Seq::<Seq<char>>::empty() =~= out@.map_values(|x: String| x@));
    }
    out
}

} // verus!
