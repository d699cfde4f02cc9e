//! The wire format of the language server protocol: frames, headers, and the
//! messages that the editor sends.
use vstd::prelude::*;
use vstd::utf8::encode_utf8;
use crate::format::{decimal, numbers_are_read_back, parse_usize, push_decimal, value_of};
use crate::format::{digits_of, is_number};
use crate::json::{
    json_bytes, json_to_vec, the_last_field_of_a_name_counts, Json, JsonView,
};
use crate::strings::{chars_of, has_prefix, string_of, strip_prefix, text_bytes};

verus! {

// ---------------------------------------------------------------------------
// Frames
// ---------------------------------------------------------------------------

/// The header of a frame with a body of `n` bytes.
pub open spec fn header(n: int) -> Seq<char> {
    "Content-Length: "@ + decimal(n) + "\r\n\r\n"@
}

/// A body with its header before it.
pub open spec fn framed(body: Seq<u8>) -> Seq<u8> {
    encode_utf8(header(body.len() as int)) + body
}

/// A body with its header before it.
pub fn frame(body: &[u8]) -> (r: Vec<u8>)
    ensures
        r@ == framed(body@),
{
    let mut head = String::from_str("Content-Length: ");
    push_decimal(&mut head, body.len() as u64);
    head.append("\r\n\r\n");
    let mut out = text_bytes(head.as_str());
    let ghost h = out@;
    out.extend_from_slice(body);
    assert(out@ =~= h + body@);
    out
}

/// What a header line means for the reader of a frame.
#[derive(Clone, Copy, Debug, PartialEq, Eq, Structural)]
pub enum HeaderStep {
    /// Read another line; the length of the body so far as it is known.
    More(Option<usize>),
    /// The header is over: read a body of this length.
    Body(usize),
    /// The header is over, and no line gave a length.
    MissingLength,
}

/// Index behind the last character before `i` that does not end a line.
pub open spec fn line_stop(s: Seq<char>, i: int) -> int
    decreases i,
{
    if 0 < i && (s[i - 1] == '\r' || s[i - 1] == '\n') {
        line_stop(s, i - 1)
    } else {
        i
    }
}

/// `line` without the line ends behind it.
pub open spec fn line_text(line: Seq<char>) -> Seq<char> {
    line.take(line_stop(line, line.len() as int))
}

/// The number in a `Content-Length` field.
pub open spec fn length_in(value: Seq<char>) -> Option<usize> {
    if is_number(value) { Some(value_of(digits_of(value)) as usize) } else { None }
}

/// What a header line means, where `known` is the length that the lines before
/// it gave.
pub open spec fn header_step(line: Seq<char>, known: Option<usize>) -> HeaderStep {
    let t = line_text(line);
    if t.len() == 0 {
        match known {
            Some(n) => HeaderStep::Body(n),
            None => HeaderStep::MissingLength,
        }
    } else if has_prefix(t, "Content-Length: "@) {
        HeaderStep::More(length_in(t.skip("Content-Length: "@.len() as int)))
    } else {
        HeaderStep::More(known)
    }
}

/// Take in one header line. An empty one ends the header; the last
/// `Content-Length` counts, and is forgotten if it is not a number.
pub fn header_line(line: &str, known: Option<usize>) -> (r: HeaderStep)
    ensures
        r == header_step(line@, known),
{
    let chars = chars_of(line);
    let mut n: usize = chars.len();
    while n > 0 && (chars[n - 1] == '\r' || chars[n - 1] == '\n')
        invariant
            n <= chars@.len(),
            line_stop(chars@, n as int) == line_stop(chars@, chars@.len() as int),
        decreases n,
    {
        n -= 1;
    }
    if n == 0 {
        return match known {
            Some(len) => HeaderStep::Body(len),
            None => HeaderStep::MissingLength,
        };
    }
    let text = string_of(chars.as_slice(), 0, n);
    assert(text@ =~= line_text(line@));
    match strip_prefix(text.as_str(), "Content-Length: ") {
        Some(value) => HeaderStep::More(parse_usize(value.as_str())),
        None => HeaderStep::More(known),
    }
}

/// A header that was written is read back: its first line gives the length,
/// and the empty line behind it asks for a body of that length.
pub proof fn a_written_header_is_read_back(n: usize, known: Option<usize>)
    ensures
        header(n as int) == ("Content-Length: "@ + decimal(n as int) + "\r\n"@) + "\r\n"@,
        header_step("Content-Length: "@ + decimal(n as int) + "\r\n"@, known) == HeaderStep::More(
            Some(n),
        ),
        header_step("\r\n"@, Some(n)) == HeaderStep::Body(n),
{
    reveal_strlit("Content-Length: ");
    reveal_strlit("\r\n");
    reveal_strlit("\r\n\r\n");
    let p = "Content-Length: "@;
    let d = decimal(n as int);
    let e = "\r\n"@;
    numbers_are_read_back(n as int);
    assert("\r\n\r\n"@ =~= e + e);
    assert(header(n as int) =~= (p + d + e) + e);
    let line = p + d + e;
    let len = line.len() as int;
    reveal_with_fuel(line_stop, 4);
    assert(line[len - 1] == '\n' && line[len - 2] == '\r');
    assert(d.len() > 0);
    assert(line[len - 3] == d.last());
    assert(crate::format::is_digit(d.last()));
    assert(line_stop(line, len) == len - 2);
    let t = line_text(line);
    assert(t =~= p + d);
    assert(t.take(p.len() as int) =~= p);
    assert(t.skip(p.len() as int) =~= d);
    assert(line_stop(e, 2) == 0);
    assert(line_text(e) =~= Seq::<char>::empty());
}

// ---------------------------------------------------------------------------
// Messages to the server
// ---------------------------------------------------------------------------

/// A request.
pub open spec fn request_json(id: u64, method: Seq<char>, params: JsonView) -> JsonView {
    JsonView::Object(
        seq![
            ("jsonrpc"@, JsonView::Str("2.0"@)),
            ("id"@, JsonView::Unsigned(id)),
            ("method"@, JsonView::Str(method)),
            ("params"@, params),
        ],
    )
}

/// A notification.
pub open spec fn notification_json(method: Seq<char>, params: JsonView) -> JsonView {
    JsonView::Object(
        seq![
            ("jsonrpc"@, JsonView::Str("2.0"@)),
            ("method"@, JsonView::Str(method)),
            ("params"@, params),
        ],
    )
}

/// A message as it goes out.
pub open spec fn sent_as(message: JsonView) -> Seq<u8> {
    framed(json_bytes(message))
}

fn send(message: &Json) -> (r: Vec<u8>)
    ensures
        r@ == sent_as(message@),
{
    let body = json_to_vec(message);
    frame(body.as_slice())
}

/// The bytes of a request.
pub fn request(id: u64, method: &str, params: Json) -> (r: Vec<u8>)
    ensures
        r@ == sent_as(request_json(id, method@, params@)),
{
    let ghost p = params@;
    let m = Json::object().with("jsonrpc", Json::string("2.0")).with(
        "id",
        Json::Unsigned(id),
    ).with("method", Json::string(method)).with("params", params);
    assert(m@->Object_0 =~= request_json(id, method@, p)->Object_0);
    send(&m)
}

/// The bytes of a notification.
pub fn notification(method: &str, params: Json) -> (r: Vec<u8>)
    ensures
        r@ == sent_as(notification_json(method@, params@)),
{
    let ghost p = params@;
    let m = Json::object().with("jsonrpc", Json::string("2.0")).with(
        "method",
        Json::string(method),
    ).with("params", params);
    assert(m@->Object_0 =~= notification_json(method@, p)->Object_0);
    send(&m)
}

/// `{ "uri": uri }`
pub open spec fn document_json(uri: Seq<char>) -> JsonView {
    JsonView::Object(seq![("uri"@, JsonView::Str(uri))])
}

/// A place in a document.
pub open spec fn position_json(line: u32, character: u32) -> JsonView {
    JsonView::Object(
        seq![
            ("line"@, JsonView::Unsigned(line as u64)),
            ("character"@, JsonView::Unsigned(character as u64)),
        ],
    )
}

/// A document and a place in it.
pub open spec fn place_json(uri: Seq<char>, line: u32, character: u32) -> JsonView {
    JsonView::Object(
        seq![
            ("textDocument"@, document_json(uri)),
            ("position"@, position_json(line, character)),
        ],
    )
}

fn one(key: &str, value: Json) -> (r: Json)
    ensures
        r is Object,
        r@ == JsonView::Object(seq![(key@, value@)]),
{
    let ghost v = value@;
    let r = Json::object().with(key, value);
    assert(r@->Object_0 =~= seq![(key@, v)]);
    r
}

fn two(k1: &str, v1: Json, k2: &str, v2: Json) -> (r: Json)
    ensures
        r is Object,
        r@ == JsonView::Object(seq![(k1@, v1@), (k2@, v2@)]),
{
    let ghost a = v1@;
    let ghost b = v2@;
    let r = Json::object().with(k1, v1).with(k2, v2);
    assert(r@->Object_0 =~= seq![(k1@, a), (k2@, b)]);
    r
}

pub fn place(uri: &str, line: u32, character: u32) -> (r: Json)
    ensures
        r is Object,
        r@ == place_json(uri@, line, character),
{
    let doc = one("uri", Json::string(uri));
    let pos = two(
        "line",
        Json::Unsigned(line as u64),
        "character",
        Json::Unsigned(character as u64),
    );
    two("textDocument", doc, "position", pos)
}

/// Why completion is asked for.
#[derive(Clone, Copy, Debug)]
pub enum CompletionTrigger {
    /// By hand, or by the length of a word.
    Invoked,
    /// By this character.
    Character(char),
    /// Because the last answer was incomplete and more was typed.
    Incomplete,
}

pub open spec fn context_json(trigger: CompletionTrigger) -> JsonView {
    match trigger {
        CompletionTrigger::Character(c) => JsonView::Object(
            seq![
                ("triggerKind"@, JsonView::Unsigned(2)),
                ("triggerCharacter"@, JsonView::Str(seq![c])),
            ],
        ),
        CompletionTrigger::Invoked => JsonView::Object(
            seq![("triggerKind"@, JsonView::Unsigned(1))],
        ),
        CompletionTrigger::Incomplete => JsonView::Object(
            seq![("triggerKind"@, JsonView::Unsigned(3))],
        ),
    }
}

pub open spec fn completion_json(
    uri: Seq<char>,
    line: u32,
    character: u32,
    trigger: CompletionTrigger,
) -> JsonView {
    JsonView::Object(
        seq![
            ("textDocument"@, document_json(uri)),
            ("position"@, position_json(line, character)),
            ("context"@, context_json(trigger)),
        ],
    )
}

fn context(trigger: CompletionTrigger) -> (r: Json)
    ensures
        r@ == context_json(trigger),
{
    match trigger {
        CompletionTrigger::Character(c) => {
            let mut s = String::new();
            s.push(c);
            assert(s@ =~= seq![c]);
            two("triggerKind", Json::Unsigned(2), "triggerCharacter", Json::Str(s))
        },
        CompletionTrigger::Invoked => one("triggerKind", Json::Unsigned(1)),
        CompletionTrigger::Incomplete => one("triggerKind", Json::Unsigned(3)),
    }
}

pub fn completion_params(uri: &str, line: u32, character: u32, trigger: CompletionTrigger) -> (r:
    Json)
    ensures
        r@ == completion_json(uri@, line, character, trigger),
{
    let r = place(uri, line, character).with("context", context(trigger));
    assert(r@->Object_0 =~= completion_json(uri@, line, character, trigger)->Object_0);
    r
}

/// The contents of a document that was opened.
pub open spec fn opened_json(uri: Seq<char>, language: Seq<char>, text: Seq<char>) -> JsonView {
    JsonView::Object(
        seq![
            (
                "textDocument"@,
                JsonView::Object(
                    seq![
                        ("uri"@, JsonView::Str(uri)),
                        ("languageId"@, JsonView::Str(language)),
                        ("version"@, JsonView::Unsigned(1)),
                        ("text"@, JsonView::Str(text)),
                    ],
                ),
            ),
        ],
    )
}

pub fn opened(uri: &str, language_id: &str, text: &str) -> (r: Json)
    ensures
        r@ == opened_json(uri@, language_id@, text@),
{
    let doc = Json::object().with("uri", Json::string(uri)).with(
        "languageId",
        Json::string(language_id),
    ).with("version", Json::Unsigned(1)).with("text", Json::string(text));
    assert(doc@->Object_0 =~= seq![
        ("uri"@, JsonView::Str(uri@)),
        ("languageId"@, JsonView::Str(language_id@)),
        ("version"@, JsonView::Unsigned(1)),
        ("text"@, JsonView::Str(text@)),
    ]);
    one("textDocument", doc)
}

/// The whole contents of a document that changed.
pub open spec fn changed_json(uri: Seq<char>, version: u64, text: Seq<char>) -> JsonView {
    JsonView::Object(
        seq![
            (
                "textDocument"@,
                JsonView::Object(
                    seq![("uri"@, JsonView::Str(uri)), ("version"@, JsonView::Unsigned(version))],
                ),
            ),
            (
                "contentChanges"@,
                JsonView::Array(seq![JsonView::Object(seq![("text"@, JsonView::Str(text))])]),
            ),
        ],
    )
}

pub fn changed(uri: &str, version: u64, text: &str) -> (r: Json)
    ensures
        r@ == changed_json(uri@, version, text@),
{
    let doc = two("uri", Json::string(uri), "version", Json::Unsigned(version));
    let change = Json::singleton(one("text", Json::string(text)));
    two("textDocument", doc, "contentChanges", change)
}

/// What the editor can do with text documents.
pub open spec fn document_abilities() -> JsonView {
    JsonView::Object(
        seq![
            (
                "definition"@,
                JsonView::Object(seq![("linkSupport"@, JsonView::Bool(true))]),
            ),
            (
                "synchronization"@,
                JsonView::Object(seq![("didSave"@, JsonView::Bool(false))]),
            ),
            (
                "publishDiagnostics"@,
                JsonView::Object(seq![("relatedInformation"@, JsonView::Bool(false))]),
            ),
            (
                "completion"@,
                JsonView::Object(
                    seq![
                        (
                            "completionItem"@,
                            JsonView::Object(seq![("snippetSupport"@, JsonView::Bool(false))]),
                        ),
                    ],
                ),
            ),
        ],
    )
}

/// What the editor can do: UTF-8 positions, links to definitions, no snippets.
pub open spec fn abilities() -> JsonView {
    JsonView::Object(
        seq![
            (
                "general"@,
                JsonView::Object(
                    seq![
                        (
                            "positionEncodings"@,
                            JsonView::Array(seq![JsonView::Str("utf-8"@)]),
                        ),
                    ],
                ),
            ),
            ("textDocument"@, document_abilities()),
        ],
    )
}

/// The parameters of `initialize`.
pub open spec fn initialize_json(process_id: u32, root_uri: Seq<char>) -> JsonView {
    JsonView::Object(
        seq![
            ("processId"@, JsonView::Unsigned(process_id as u64)),
            ("rootUri"@, JsonView::Str(root_uri)),
            (
                "workspaceFolders"@,
                JsonView::Array(
                    seq![
                        JsonView::Object(
                            seq![
                                ("uri"@, JsonView::Str(root_uri)),
                                ("name"@, JsonView::Str("workspace"@)),
                            ],
                        ),
                    ],
                ),
            ),
            ("capabilities"@, abilities()),
            (
                "clientInfo"@,
                JsonView::Object(
                    seq![
                        ("name"@, JsonView::Str("medit"@)),
                        ("version"@, JsonView::Str("0.1.0"@)),
                    ],
                ),
            ),
        ],
    )
}

fn document_abilities_value() -> (r: Json)
    ensures
        r@ == document_abilities(),
{
    let definition = one("linkSupport", Json::Bool(true));
    let synchronization = one("didSave", Json::Bool(false));
    let diagnostics = one("relatedInformation", Json::Bool(false));
    let item = one("snippetSupport", Json::Bool(false));
    let completion = one("completionItem", item);
    let r = Json::object().with("definition", definition).with(
        "synchronization",
        synchronization,
    ).with("publishDiagnostics", diagnostics).with("completion", completion);
    assert(r@->Object_0 =~= document_abilities()->Object_0);
    r
}

/// The parameters of `initialize`.
pub fn initialize_params(process_id: u32, root_uri: &str) -> (r: Json)
    ensures
        r@ == initialize_json(process_id, root_uri@),
{
    let encodings = one("positionEncodings", Json::singleton(Json::string("utf-8")));
    let able = two("general", encodings, "textDocument", document_abilities_value());
    let folder = two("uri", Json::string(root_uri), "name", Json::string("workspace"));
    let info = two("name", Json::string("medit"), "version", Json::string("0.1.0"));
    let r = Json::object().with("processId", Json::Unsigned(process_id as u64)).with(
        "rootUri",
        Json::string(root_uri),
    ).with("workspaceFolders", Json::singleton(folder)).with("capabilities", able).with(
        "clientInfo",
        info,
    );
    assert(r@->Object_0 =~= initialize_json(process_id, root_uri@)->Object_0);
    r
}

proof fn lemma_names_differ()
    ensures
        "line"@ != "character"@,
        "textDocument"@ != "position"@,
        "textDocument"@ != "context"@,
        "position"@ != "context"@,
        "jsonrpc"@ != "id"@,
        "jsonrpc"@ != "method"@,
        "jsonrpc"@ != "params"@,
        "id"@ != "method"@,
        "id"@ != "params"@,
        "method"@ != "params"@,
        "triggerKind"@ != "triggerCharacter"@,
        "uri"@ != "languageId"@,
        "uri"@ != "version"@,
        "uri"@ != "text"@,
        "languageId"@ != "version"@,
        "languageId"@ != "text"@,
        "version"@ != "text"@,
        "textDocument"@ != "contentChanges"@,
{
    reveal_strlit("line");
    reveal_strlit("character");
    reveal_strlit("textDocument");
    reveal_strlit("position");
    reveal_strlit("context");
    reveal_strlit("jsonrpc");
    reveal_strlit("id");
    reveal_strlit("method");
    reveal_strlit("params");
    reveal_strlit("triggerKind");
    reveal_strlit("triggerCharacter");
    reveal_strlit("uri");
    reveal_strlit("languageId");
    reveal_strlit("version");
    reveal_strlit("text");
    reveal_strlit("contentChanges");
    assert("line"@.len() == 4 && "line"@[0] == 'l');
    assert("character"@.len() == 9 && "character"@[0] == 'c');
    assert("textDocument"@.len() == 12 && "textDocument"@[0] == 't');
    assert("position"@.len() == 8 && "position"@[0] == 'p');
    assert("context"@.len() == 7 && "context"@[0] == 'c');
    assert("jsonrpc"@.len() == 7 && "jsonrpc"@[0] == 'j');
    assert("id"@.len() == 2 && "id"@[0] == 'i');
    assert("method"@.len() == 6 && "method"@[0] == 'm');
    assert("params"@.len() == 6 && "params"@[0] == 'p');
    assert("triggerKind"@.len() == 11 && "triggerKind"@[0] == 't');
    assert("triggerCharacter"@.len() == 16 && "triggerCharacter"@[0] == 't');
    assert("uri"@.len() == 3 && "uri"@[0] == 'u');
    assert("languageId"@.len() == 10 && "languageId"@[0] == 'l');
    assert("version"@.len() == 7 && "version"@[0] == 'v');
    assert("text"@.len() == 4 && "text"@[0] == 't');
    assert("contentChanges"@.len() == 14 && "contentChanges"@[0] == 'c');
}

/// A place in a document is written with the document's URI, the line and the
/// character.
pub proof fn places_name_the_document_and_the_position(uri: Seq<char>, line: u32, character: u32)
    ensures
        ({
            let v = place_json(uri, line, character);
            &&& v.field("textDocument"@) matches Some(d) && d.text_field("uri"@) == Some(uri)
            &&& v.field("position"@) matches Some(p) && p.number_field("line"@) == Some(line as u64)
                && p.number_field("character"@) == Some(character as u64)
        }),
{
    lemma_names_differ();
    reveal_with_fuel(crate::json::field_of, 4);
    let v = place_json(uri, line, character);
    let fs = seq![
        ("textDocument"@, document_json(uri)),
        ("position"@, position_json(line, character)),
    ];
    assert(fs.drop_last().last() == fs[0]);
    let ps = seq![
        ("line"@, JsonView::Unsigned(line as u64)),
        ("character"@, JsonView::Unsigned(character as u64)),
    ];
    assert(ps.drop_last().last() == ps[0]);
}

/// A request carries its id, a notification carries none; both carry their method
/// and their parameters.
pub proof fn requests_carry_their_id(id: u64, method: Seq<char>, params: JsonView)
    ensures
        ({
            let (r, n) = (request_json(id, method, params), notification_json(method, params));
            &&& r.number_field("id"@) == Some(id)
            &&& n.field("id"@) is None
            &&& r.text_field("method"@) == Some(method) && n.text_field("method"@) == Some(method)
            &&& r.field("params"@) == Some(params) && n.field("params"@) == Some(params)
            &&& r.text_field("jsonrpc"@) == Some("2.0"@) && n.text_field("jsonrpc"@) == Some("2.0"@)
        }),
{
    lemma_names_differ();
    let fs = seq![
        ("jsonrpc"@, JsonView::Str("2.0"@)),
        ("id"@, JsonView::Unsigned(id)),
        ("method"@, JsonView::Str(method)),
        ("params"@, params),
    ];
    let gs = seq![
        ("jsonrpc"@, JsonView::Str("2.0"@)),
        ("method"@, JsonView::Str(method)),
        ("params"@, params),
    ];
    the_last_field_of_a_name_counts(fs, 0, "jsonrpc"@);
    the_last_field_of_a_name_counts(fs, 1, "id"@);
    the_last_field_of_a_name_counts(fs, 2, "method"@);
    the_last_field_of_a_name_counts(fs, 3, "params"@);
    the_last_field_of_a_name_counts(gs, 0, "jsonrpc"@);
    the_last_field_of_a_name_counts(gs, 0, "id"@);
    the_last_field_of_a_name_counts(gs, 1, "method"@);
    the_last_field_of_a_name_counts(gs, 2, "params"@);
}

/// A completion request tells what caused it by the number that the protocol has
/// for it, and by which character if one did.
pub proof fn completion_requests_tell_their_cause(
    uri: Seq<char>,
    line: u32,
    character: u32,
    trigger: CompletionTrigger,
)
    ensures
        ({
            let v = completion_json(uri, line, character, trigger);
            &&& v.field("textDocument"@) matches Some(d) && d.text_field("uri"@) == Some(uri)
            &&& v.field("position"@) == Some(position_json(line, character))
            &&& v.field("context"@) matches Some(c) && c.number_field("triggerKind"@)
                == Some(
                match trigger {
                    CompletionTrigger::Invoked => 1u64,
                    CompletionTrigger::Character(_) => 2u64,
                    CompletionTrigger::Incomplete => 3u64,
                },
            ) && c.text_field("triggerCharacter"@) == match trigger {
                CompletionTrigger::Character(x) => Some(seq![x]),
                _ => None,
            }
        }),
{
    lemma_names_differ();
    let fs = seq![
        ("textDocument"@, document_json(uri)),
        ("position"@, position_json(line, character)),
        ("context"@, context_json(trigger)),
    ];
    the_last_field_of_a_name_counts(fs, 0, "textDocument"@);
    the_last_field_of_a_name_counts(fs, 1, "position"@);
    the_last_field_of_a_name_counts(fs, 2, "context"@);
    the_last_field_of_a_name_counts(seq![("uri"@, JsonView::Str(uri))], 0, "uri"@);
    match trigger {
        CompletionTrigger::Character(c) => {
            let cs = seq![
                ("triggerKind"@, JsonView::Unsigned(2)),
                ("triggerCharacter"@, JsonView::Str(seq![c])),
            ];
            the_last_field_of_a_name_counts(cs, 0, "triggerKind"@);
            the_last_field_of_a_name_counts(cs, 1, "triggerCharacter"@);
        },
        CompletionTrigger::Invoked => {
            let cs = seq![("triggerKind"@, JsonView::Unsigned(1))];
            the_last_field_of_a_name_counts(cs, 0, "triggerKind"@);
            the_last_field_of_a_name_counts(cs, 0, "triggerCharacter"@);
        },
        CompletionTrigger::Incomplete => {
            let cs = seq![("triggerKind"@, JsonView::Unsigned(3))];
            the_last_field_of_a_name_counts(cs, 0, "triggerKind"@);
            the_last_field_of_a_name_counts(cs, 0, "triggerCharacter"@);
        },
    }
}

/// Opening a document sends its whole text as the first version; changing it sends
/// the whole text again, with the version it has.
pub proof fn documents_are_sent_whole(
    uri: Seq<char>,
    language: Seq<char>,
    version: u64,
    text: Seq<char>,
)
    ensures
        ({
            let d = opened_json(uri, language, text).field("textDocument"@);
            d matches Some(d) && d.text_field("uri"@) == Some(uri) && d.text_field("languageId"@)
                == Some(language) && d.number_field("version"@) == Some(1u64) && d.text_field("text"@)
                == Some(text)
        }),
        ({
            let v = changed_json(uri, version, text);
            &&& v.field("textDocument"@) matches Some(d) && d.text_field("uri"@) == Some(uri)
                && d.number_field("version"@) == Some(version)
            &&& v.field("contentChanges"@) matches Some(JsonView::Array(a)) && a.len() == 1
                && a[0].text_field("text"@) == Some(text)
        }),
{
    lemma_names_differ();
    let os = seq![
        ("uri"@, JsonView::Str(uri)),
        ("languageId"@, JsonView::Str(language)),
        ("version"@, JsonView::Unsigned(1)),
        ("text"@, JsonView::Str(text)),
    ];
    the_last_field_of_a_name_counts(os, 0, "uri"@);
    the_last_field_of_a_name_counts(os, 1, "languageId"@);
    the_last_field_of_a_name_counts(os, 2, "version"@);
    the_last_field_of_a_name_counts(os, 3, "text"@);
    let whole = seq![("textDocument"@, JsonView::Object(os))];
    the_last_field_of_a_name_counts(whole, 0, "textDocument"@);
    let ds = seq![("uri"@, JsonView::Str(uri)), ("version"@, JsonView::Unsigned(version))];
    the_last_field_of_a_name_counts(ds, 0, "uri"@);
    the_last_field_of_a_name_counts(ds, 1, "version"@);
    let ts = seq![("text"@, JsonView::Str(text))];
    the_last_field_of_a_name_counts(ts, 0, "text"@);
    let vs = seq![
        ("textDocument"@, JsonView::Object(ds)),
        ("contentChanges"@, JsonView::Array(seq![JsonView::Object(ts)])),
    ];
    the_last_field_of_a_name_counts(vs, 0, "textDocument"@);
    the_last_field_of_a_name_counts(vs, 1, "contentChanges"@);
}

/// Lines of a header that give no length change nothing, and the empty line ends
/// it: with the length that is known, or with none.
pub proof fn the_empty_line_ends_the_header(line: Seq<char>, known: Option<usize>)
    ensures
        header_step(seq!['\r', '\n'], known) == match known {
            Some(n) => HeaderStep::Body(n),
            None => HeaderStep::MissingLength,
        },
        line.len() > 0 && line[0] != 'C' && line[0] != '\r' && line[0] != '\n' ==> header_step(
            line,
            known,
        ) == HeaderStep::More(known),
{
    reveal_with_fuel(line_stop, 3);
    let e = seq!['\r', '\n'];
    assert(line_stop(e, 2) == 0);
    assert(e.take(0).len() == 0);
    if line.len() > 0 && line[0] != 'C' && line[0] != '\r' && line[0] != '\n' {
        lemma_stops_late(line, line.len() as int);
        let t = line_text(line);
        assert(t.len() > 0 && t[0] == line[0]);
        reveal_strlit("Content-Length: ");
        if has_prefix(t, "Content-Length: "@) {
            assert(t.take("Content-Length: "@.len() as int)[0] == "Content-Length: "@[0]);
        }
    }
}

proof fn lemma_stops_late(s: Seq<char>, i: int)
    requires
        1 <= i <= s.len(),
        s[0] != '\r',
        s[0] != '\n',
    ensures
        1 <= line_stop(s, i) <= i,
    decreases i,
{
    if i > 1 && (s[i - 1] == '\r' || s[i - 1] == '\n') {
        lemma_stops_late(s, i - 1);
    }
}

}
