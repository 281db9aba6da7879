//! The JSON body of a Slack webhook message carrying the report.
use vstd::prelude::*;
use crate::text::digit_char;

verus! {

/// The escape of one character inside a JSON string, as `serde_json`
/// writes it: `"` and `\` get a backslash, backspace, tab, line feed, form
/// feed and carriage return get `\b \t \n \f \r`, the other control
/// characters below U+0020 get `\u00XX` (lower-case hex), and every other
/// character stands for itself.
pub open spec fn json_escape_char(c: char) -> Seq<char> {
    let u = c as u32;
    if c == '"' {
        seq!['\\', '"']
    } else if c == '\\' {
        seq!['\\', '\\']
    } else if u == 0x08 {
        seq!['\\', 'b']
    } else if u == 0x09 {
        seq!['\\', 't']
    } else if u == 0x0A {
        seq!['\\', 'n']
    } else if u == 0x0C {
        seq!['\\', 'f']
    } else if u == 0x0D {
        seq!['\\', 'r']
    } else if u < 0x20 {
        seq!['\\', 'u', '0', '0', digit_char((u / 16) as int), hex_digit((u % 16) as int)]
    } else {
        seq![c]
    }
}

/// The lower-case hexadecimal digit for `d` in `0..16`.
pub open spec fn hex_digit(d: int) -> char {
    if d < 10 {
        digit_char(d)
    } else {
        (87 + d) as char
    }
}

/// The escaped characters of `s`, in order.
pub open spec fn json_escaped(s: Seq<char>) -> Seq<char>
    decreases s.len(),
{
    if s.len() == 0 {
        Seq::empty()
    } else {
        json_escaped(s.drop_last()) + json_escape_char(s.last())
    }
}

/// `s` as a JSON string literal.
pub open spec fn json_quoted(s: Seq<char>) -> Seq<char> {
    seq!['"'] + json_escaped(s) + seq!['"']
}

/// `s` as a JSON string literal.
///
/// Trusted: calls `serde_json::to_string` on the `&str`. Its serializer
/// writes the string between quotes with the escapes of
/// `json_escape_char`; writing into its in-memory buffer cannot fail, so
/// the call returns `Ok` for every string.
#[verifier::external_body]
fn json_string(s: &str) -> (r: String)
    ensures
        r@ == json_quoted(s@),
{
    serde_json::to_string(s).unwrap_or_default()
}

/// A Slack "section" block with a Markdown text, as compact JSON with its
/// keys in sorted order.
pub open spec fn section_json(text: Seq<char>) -> Seq<char> {
    "{\"text\":{\"text\":"@ + json_quoted(text) + ",\"type\":\"mrkdwn\"},\"type\":\"section\"}"@
}

/// The webhook body: an optional header section with the message in bold,
/// then a section with the report in a code block.
pub open spec fn slack_payload_text(tree_text: Seq<char>, message: Option<Seq<char>>) -> Seq<char> {
    "{\"blocks\":["@ + (match message {
        Some(m) => section_json("*"@ + m + "*"@) + ","@,
        None => Seq::empty(),
    }) + section_json("```\n"@ + tree_text + "\n```"@) + "]}"@
}

fn push_section(out: &mut String, text: &str)
    ensures
        final(out)@ == old(out)@ + section_json(text@),
{
    out.append("{\"text\":{\"text\":");
    let q = json_string(text);
    out.append(q.as_str());
    out.append(",\"type\":\"mrkdwn\"},\"type\":\"section\"}");
    proof {
        assert(final(out)@ =~= old(out)@ + section_json(text@));
    }
}

/// The JSON body sent to a Slack webhook for a report.
pub fn slack_payload(tree_text: &str, message: Option<&str>) -> (r: String)
    ensures
        r@ == slack_payload_text(
            tree_text@,
            match message {
                Some(m) => Some(m@),
                None => None,
            },
        ),
{
    let mut r = String::from_str("{\"blocks\":[");
    let ghost start = r@;
    match message {
        Some(m) => {
            let mut header = String::from_str("*");
            header.append(m);
            header.append("*");
            push_section(&mut r, header.as_str());
            r.append(",");
        },
        None => {},
    }
    let mut body = String::from_str("```\n");
    body.append(tree_text);
    body.append("\n```");
    push_section(&mut r, body.as_str());
    r.append("]}");
    proof {
        let mv = match message {
            Some(m) => Some(m@),
            None => None,
        };
        assert(r@ =~= slack_payload_text(tree_text@, mv));
    }
    r
}

} // verus!
