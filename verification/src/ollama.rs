//! The request sent to the local Ollama service for one page image, and the
//! reading of its reply.
use vstd::prelude::*;

verus! {

broadcast use vstd::seq::group_seq_axioms;

/// The instruction sent with every page image.
pub const PROMPT: &'static str = "Extract the text from this document page as Markdown. Mark every person name you find with the tag [NAME: Firstname Lastname]. Do not substitute or remove anything else. Preserve all other content exactly.";

/// The character of the standard Base64 alphabet for a 6-bit value.
pub open spec fn base64_symbol(v: u8) -> char {
    if v < 26 {
        (('A' as u32) + v) as char
    } else if v < 52 {
        (('a' as u32) + (v - 26)) as char
    } else if v < 62 {
        (('0' as u32) + (v - 52)) as char
    } else if v == 62 {
        '+'
    } else {
        '/'
    }
}

/// Standard Base64 with padding (RFC 4648, section 4): every three bytes
/// become four symbols; a last group of one or two bytes is padded with `=`.
pub open spec fn base64_standard(bytes: Seq<u8>) -> Seq<char>
    decreases bytes.len(),
{
    if bytes.len() == 0 {
        seq![]
    } else if bytes.len() == 1 {
        let b0 = bytes[0];
        seq![base64_symbol(b0 >> 2), base64_symbol((b0 & 3) << 4), '=', '=']
    } else if bytes.len() == 2 {
        let (b0, b1) = (bytes[0], bytes[1]);
        seq![
            base64_symbol(b0 >> 2),
            base64_symbol(((b0 & 3) << 4) | (b1 >> 4)),
            base64_symbol((b1 & 15) << 2),
            '=',
        ]
    } else {
        let (b0, b1, b2) = (bytes[0], bytes[1], bytes[2]);
        seq![
            base64_symbol(b0 >> 2),
            base64_symbol(((b0 & 3) << 4) | (b1 >> 4)),
            base64_symbol(((b1 & 15) << 2) | (b2 >> 6)),
            base64_symbol(b2 & 63),
        ] + base64_standard(bytes.skip(3))
    }
}

/// Calls `Engine::encode` of the `base64` crate's `STANDARD` engine: the
/// standard alphabet with padding, as stated by [`base64_standard`].
#[verifier::external_body]
fn encode_base64(bytes: &[u8]) -> (r: String)
    ensures
        r@ == base64_standard(bytes@),
{
    base64::Engine::encode(&base64::engine::general_purpose::STANDARD, bytes)
}

/// The lowercase hexadecimal digit for a value below 16.
pub open spec fn hex_digit(v: u32) -> char {
    if v < 10 {
        (('0' as u32) + v) as char
    } else {
        (('a' as u32) + (v - 10)) as char
    }
}

/// How `serde_json` writes one character inside a JSON string: `"` and `\`
/// behind a backslash, the control characters with a short escape where JSON
/// has one and as `\u00XX` otherwise, every other character as it is.
pub open spec fn json_escape_char(c: char) -> Seq<char> {
    if c == '"' {
        seq!['\\', '"']
    } else if c == '\\' {
        seq!['\\', '\\']
    } else if c == '\x08' {
        seq!['\\', 'b']
    } else if c == '\x0c' {
        seq!['\\', 'f']
    } else if c == '\n' {
        seq!['\\', 'n']
    } else if c == '\r' {
        seq!['\\', 'r']
    } else if c == '\t' {
        seq!['\\', 't']
    } else if (c as u32) < 0x20 {
        seq!['\\', 'u', '0', '0', hex_digit((c as u32) / 16), hex_digit((c as u32) % 16)]
    } else {
        seq![c]
    }
}

/// The escaped characters of a text, one after the other.
pub open spec fn json_escaped(s: Seq<char>) -> Seq<char>
    decreases s.len(),
{
    if s.len() == 0 {
        seq![]
    } else {
        json_escape_char(s[0]) + json_escaped(s.drop_first())
    }
}

/// A text as a JSON string literal.
pub open spec fn json_string(s: Seq<char>) -> Seq<char> {
    seq!['"'] + json_escaped(s) + seq!['"']
}

/// The request body for one page: a JSON object written compactly with its
/// keys in sorted order: the Base64 image in an array, the model, the prompt,
/// and streaming turned off.
pub open spec fn request_json(image_b64: Seq<char>, model: Seq<char>, prompt: Seq<char>) -> Seq<char> {
    "{\"images\":["@ + json_string(image_b64) + "],\"model\":"@ + json_string(model)
        + ",\"prompt\":"@ + json_string(prompt) + ",\"stream\":false}"@
}

/// Writes a text as a JSON string with `serde_json::to_string`, whose
/// compact writer puts it in double quotes and escapes its characters as
/// [`json_string`] states. Serializing a `str` into the vector that
/// `to_string` writes to cannot fail, so the empty fallback is never taken.
#[verifier::external_body]
fn to_json_string(s: &str) -> (r: String)
    ensures
        r@ == json_string(s@),
{
    serde_json::to_string(s).unwrap_or_default()
}

/// Builds the JSON request for one page image, already Base64-encoded, with
/// the fixed [`PROMPT`]: an object with its keys in sorted order, as
/// `serde_json` writes an object without the `preserve_order` feature, and
/// without spaces.
pub fn build_request(image_b64: &str, model: &str) -> (r: String)
    ensures
        r@ == request_json(image_b64@, model@, PROMPT@),
{
    let image = to_json_string(image_b64);
    let model_json = to_json_string(model);
    let prompt = to_json_string(PROMPT);
    let mut r = "{\"images\":[".to_owned();
    r.append(image.as_str());
    r.append("],\"model\":");
    r.append(model_json.as_str());
    r.append(",\"prompt\":");
    r.append(prompt.as_str());
    r.append(",\"stream\":false}");
    proof {
        assert(r@ =~= request_json(image_b64@, model@, PROMPT@));
    }
    r
}

/// The request body for one page image: the image encoded in Base64, sent
/// with the model's name and the prompt.
pub fn page_request_body(image_bytes: &[u8], model: &str) -> (r: String)
    ensures
        r@ == request_json(base64_standard(image_bytes@), model@, PROMPT@),
{
    let image_b64 = encode_base64(image_bytes);
    build_request(image_b64.as_str(), model)
}

/// The two fields of an Ollama reply that matter: its `error` and its
/// `response`, each present where the reply holds it as a string.
pub struct OllamaReply {
    pub error: Option<String>,
    pub response: Option<String>,
}

/// The text of an optional string.
pub open spec fn opt_text(s: Option<String>) -> Option<Seq<char>> {
    match s {
        Some(t) => Some(t@),
        None => None,
    }
}

/// What `serde_json::from_str::<Value>` makes of a reply: `None` where it is
/// not JSON; otherwise the top-level `error` and `response` members, each
/// where it is a string.
pub uninterp spec fn reply_fields(json: Seq<char>) -> Option<(Option<Seq<char>>, Option<Seq<char>>)>;

/// Parses a reply with `serde_json::from_str` into a `serde_json::Value` and
/// picks its `error` and `response` members where they are strings. The
/// contract names the result and claims nothing more of it.
#[verifier::external_body]
fn decode_reply(json: &str) -> (r: Option<OllamaReply>)
    ensures
        r is Some <==> reply_fields(json@) is Some,
        r matches Some(reply) ==> reply_fields(json@) == Some(
            (opt_text(reply.error), opt_text(reply.response)),
        ),
{
    let v: serde_json::Value = serde_json::from_str(json).ok()?;
    Some(
        OllamaReply {
            error: v["error"].as_str().map(|s| s.to_string()),
            response: v["response"].as_str().map(|s| s.to_string()),
        },
    )
}

/// The outcome of a decoded reply: an `error` member wins and is reported as
/// `ollama error: ...`; else the `response` member is the page's text; a
/// reply that is not JSON or lacks both is an invalid response.
pub open spec fn reply_outcome(fields: Option<(Option<Seq<char>>, Option<Seq<char>>)>) -> Result<
    Seq<char>,
    Seq<char>,
> {
    match fields {
        None => Err("invalid response"@),
        Some((Some(e), _)) => Err("ollama error: "@ + e),
        Some((None, Some(t))) => Ok(t),
        Some((None, None)) => Err("invalid response"@),
    }
}

/// The text of a result of strings.
pub open spec fn result_text(r: Result<String, String>) -> Result<Seq<char>, Seq<char>> {
    match r {
        Ok(t) => Ok(t@),
        Err(e) => Err(e@),
    }
}

/// Decides what a decoded reply means (see [`reply_outcome`]).
pub fn interpret_reply(reply: Option<OllamaReply>) -> (r: Result<String, String>)
    ensures
        result_text(r) == reply_outcome(
            match reply {
                Some(rep) => Some((opt_text(rep.error), opt_text(rep.response))),
                None => None,
            },
        ),
{
    match reply {
        None => Err("invalid response".to_owned()),
        Some(rep) => match rep.error {
            Some(e) => {
                let mut msg = "ollama error: ".to_owned();
                msg.append(e.as_str());
                Err(msg)
            },
            None => match rep.response {
                Some(t) => Ok(t),
                None => Err("invalid response".to_owned()),
            },
        },
    }
}

/// Reads Ollama's reply to a generate request: the page's text, or the error
/// that Ollama reported, or `invalid response`.
pub fn parse_response(json: &str) -> (r: Result<String, String>)
    ensures
        result_text(r) == reply_outcome(reply_fields(json@)),
{
    interpret_reply(decode_reply(json))
}

} // verus!
