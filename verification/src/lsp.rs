//! The language server client: what the server's messages mean, which request
//! an answer belongs to, and what was diagnosed.
//!
//! Reading and writing the pipes is the caller's part. It hands over header
//! lines (`protocol::header_line`) and bodies (`read_body`), passes each message
//! on to `LspClient::handle_message`, and writes the bytes that the request
//! methods hand back.
use std::collections::HashMap;
use vstd::prelude::*;
use crate::completion::opt_text;
use crate::json::{
    copy_json, json_from_slice, json_views, lemma_json_views, parsed_json,
    the_last_field_of_a_name_counts, Json, JsonView,
};
use crate::protocol::{
    changed, changed_json, completion_json, completion_params, initialize_json, initialize_params,
    notification, notification_json, opened, opened_json, place, place_json, request, request_json,
    sent_as, CompletionTrigger,
};
use crate::sort::{ranked, ranking_commutes_with_maps, sort_ranked, Rank, Ranked};
use crate::strings::{chars_of, glue, has_prefix, str_eq, strip_prefix, trim, trimmed};

verus! {

broadcast use vstd::std_specs::hash::group_hash_axioms;

/// An error that the server answered with.
pub struct LspError {
    pub code: i64,
    pub message: String,
}

pub struct ErrorView {
    pub code: i64,
    pub message: Seq<char>,
}

impl View for LspError {
    type V = ErrorView;

    open spec fn view(&self) -> ErrorView {
        ErrorView { code: self.code, message: self.message@ }
    }
}

/// A message from the server.
pub enum Message {
    Response { id: u64, result: Result<Json, LspError> },
    Notification { method: String, params: Json },
}

pub enum MessageView {
    Response { id: u64, result: Result<JsonView, ErrorView> },
    Notification { method: Seq<char>, params: JsonView },
}

pub open spec fn answer_of(r: Result<Json, LspError>) -> Result<JsonView, ErrorView> {
    match r {
        Ok(v) => Ok(v@),
        Err(e) => Err(e@),
    }
}

impl View for Message {
    type V = MessageView;

    open spec fn view(&self) -> MessageView {
        match self {
            Message::Response { id, result } => MessageView::Response {
                id: *id,
                result: answer_of(*result),
            },
            Message::Notification { method, params } => MessageView::Notification {
                method: method@,
                params: params@,
            },
        }
    }
}

pub open spec fn opt_message(o: Option<Message>) -> Option<MessageView> {
    match o {
        Some(m) => Some(m@),
        None => None,
    }
}

#[derive(Clone, Copy, Debug, PartialEq, Eq, Structural)]
pub enum DiagnosticSeverity {
    Error,
    Warning,
    Information,
    Hint,
}

/// Something that the server found in a document.
pub struct Diagnostic {
    pub start_line: u32,
    pub start_character: u32,
    pub end_line: u32,
    pub end_character: u32,
    pub severity: DiagnosticSeverity,
    pub message: String,
    pub source: Option<String>,
}

#[verifier::ext_equal]
pub struct DiagnosticView {
    pub start_line: u32,
    pub start_character: u32,
    pub end_line: u32,
    pub end_character: u32,
    pub severity: DiagnosticSeverity,
    pub message: Seq<char>,
    pub source: Option<Seq<char>>,
}

impl View for Diagnostic {
    type V = DiagnosticView;

    open spec fn view(&self) -> DiagnosticView {
        DiagnosticView {
            start_line: self.start_line,
            start_character: self.start_character,
            end_line: self.end_line,
            end_character: self.end_character,
            severity: self.severity,
            message: self.message@,
            source: opt_text(self.source),
        }
    }
}

pub open spec fn diagnostics_of(s: Seq<Diagnostic>) -> Seq<DiagnosticView> {
    s.map_values(|d: Diagnostic| d@)
}

/// Where a definition is.
pub struct DefinitionLocation {
    pub uri: String,
    pub line: u32,
    pub character: u32,
}

#[verifier::ext_equal]
pub struct LocationView {
    pub uri: Seq<char>,
    pub line: u32,
    pub character: u32,
}

impl View for DefinitionLocation {
    type V = LocationView;

    open spec fn view(&self) -> LocationView {
        LocationView { uri: self.uri@, line: self.line, character: self.character }
    }
}

// ---------------------------------------------------------------------------
// Reading answers
// ---------------------------------------------------------------------------

/// The low half of a number.
pub open spec fn low_half(n: u64) -> u32 {
    (n % 0x1_0000_0000) as u32
}

fn to_u32(n: u64) -> (r: u32)
    ensures
        r == low_half(n),
{
    (n % 0x1_0000_0000) as u32
}

/// A line and a character in it.
pub open spec fn position_in(v: JsonView) -> Option<(u32, u32)> {
    match (v.number_field("line"@), v.number_field("character"@)) {
        (Some(l), Some(c)) => Some((low_half(l), low_half(c))),
        _ => None,
    }
}

fn parse_position(v: &Json) -> (r: Option<(u32, u32)>)
    ensures
        r == position_in(v@),
{
    match (v.get_u64("line"), v.get_u64("character")) {
        (Some(l), Some(c)) => Some((to_u32(l), to_u32(c))),
        _ => None,
    }
}

/// The position in the field `key` of `v`.
pub open spec fn position_at_field(v: JsonView, key: Seq<char>) -> Option<(u32, u32)> {
    match v.field(key) {
        Some(p) => position_in(p),
        None => None,
    }
}

fn get_position(v: &Json, key: &str) -> (r: Option<(u32, u32)>)
    ensures
        r == position_at_field(v@, key@),
{
    match v.get(key) {
        Some(p) => parse_position(p),
        None => None,
    }
}

/// The severity that a number stands for; an error unless it is another.
pub open spec fn severity_of(n: Option<u64>) -> DiagnosticSeverity {
    if n == Some(2u64) {
        DiagnosticSeverity::Warning
    } else if n == Some(3u64) {
        DiagnosticSeverity::Information
    } else if n == Some(4u64) {
        DiagnosticSeverity::Hint
    } else {
        DiagnosticSeverity::Error
    }
}

/// The diagnostic that a JSON value describes: it needs a range.
pub open spec fn diagnostic_in(v: JsonView) -> Option<DiagnosticView> {
    match v.field("range"@) {
        Some(range) => match (
            position_at_field(range, "start"@),
            position_at_field(range, "end"@),
        ) {
            (Some(a), Some(b)) => Some(
                DiagnosticView {
                    start_line: a.0,
                    start_character: a.1,
                    end_line: b.0,
                    end_character: b.1,
                    severity: severity_of(v.number_field("severity"@)),
                    message: match v.text_field("message"@) {
                        Some(m) => m,
                        None => Seq::empty(),
                    },
                    source: v.text_field("source"@),
                },
            ),
            _ => None,
        },
        None => None,
    }
}

/// The diagnostic that a JSON value describes, if it has a range.
pub fn parse_diagnostic(v: &Json) -> (r: Option<Diagnostic>)
    ensures
        r is Some <==> diagnostic_in(v@) is Some,
        r matches Some(d) ==> diagnostic_in(v@) == Some(d@),
{
    let range = match v.get("range") {
        Some(r) => r,
        None => {
            return None;
        },
    };
    let severity = match v.get_u64("severity") {
        Some(2) => DiagnosticSeverity::Warning,
        Some(3) => DiagnosticSeverity::Information,
        Some(4) => DiagnosticSeverity::Hint,
        _ => DiagnosticSeverity::Error,
    };
    let message: String = match v.get_str("message") {
        Some(m) => m.to_owned(),
        None => String::new(),
    };
    let source: Option<String> = match v.get_str("source") {
        Some(s) => Some(s.to_owned()),
        None => None,
    };
    match (get_position(range, "start"), get_position(range, "end")) {
        (Some(a), Some(b)) => Some(
            Diagnostic {
                start_line: a.0,
                start_character: a.1,
                end_line: b.0,
                end_character: b.1,
                severity,
                message,
                source,
            },
        ),
        _ => None,
    }
}

/// `a` starts before `b`.
pub open spec fn starts_before(a: DiagnosticView, b: DiagnosticView) -> bool {
    a.start_line < b.start_line || (a.start_line == b.start_line && a.start_character
        < b.start_character)
}

impl Rank for DiagnosticView {
    open spec fn below(&self, other: &Self) -> bool {
        starts_before(*self, *other)
    }

    proof fn below_is_strict_weak(a: &Self, b: &Self, c: &Self) {
    }
}

impl Rank for Diagnostic {
    open spec fn below(&self, other: &Self) -> bool {
        starts_before(self@, other@)
    }

    proof fn below_is_strict_weak(a: &Self, b: &Self, c: &Self) {
    }
}

impl Ranked for Diagnostic {
    fn is_below(&self, other: &Self) -> (r: bool) {
        self.start_line < other.start_line || (self.start_line == other.start_line
            && self.start_character < other.start_character)
    }
}

pub open spec fn diagnostics_in(a: Seq<JsonView>) -> Seq<DiagnosticView>
    decreases a.len(),
{
    if a.len() == 0 {
        Seq::empty()
    } else {
        let rest = diagnostics_in(a.drop_last());
        match diagnostic_in(a.last()) {
            Some(d) => rest.push(d),
            None => rest,
        }
    }
}

/// A document and what was found in it, in the order of the text.
pub open spec fn published(v: JsonView) -> Option<(Seq<char>, Seq<DiagnosticView>)> {
    match (v.text_field("uri"@), v.field("diagnostics"@)) {
        (Some(uri), Some(JsonView::Array(a))) => Some((uri, ranked(diagnostics_in(a)))),
        _ => None,
    }
}

/// Read the parameters of `textDocument/publishDiagnostics`.
pub fn parse_publish_diagnostics(params: &Json) -> (r: Option<(String, Vec<Diagnostic>)>)
    ensures
        r is Some <==> published(params@) is Some,
        r matches Some(p) ==> published(params@) == Some((p.0@, diagnostics_of(p.1@))),
{
    let uri = match params.get_str("uri") {
        Some(u) => u,
        None => {
            return None;
        },
    };
    let field = match params.get("diagnostics") {
        Some(d) => d,
        None => {
            return None;
        },
    };
    let a = match field.as_array() {
        Some(a) => a,
        None => {
            return None;
        },
    };
    let ghost all = json_views(a@);
    let mut out: Vec<Diagnostic> = Vec::new();
    proof {
        lemma_json_views(a@);
        assert(diagnostics_of(out@) =~= diagnostics_in(all.take(0)));
    }
    let mut i: usize = 0;
    while i < a.len()
        invariant
            i <= a@.len() == all.len(),
            forall|k: int| 0 <= k < a@.len() ==> #[trigger] all[k] == a@[k]@,
            diagnostics_of(out@) == diagnostics_in(all.take(i as int)),
        decreases a@.len() - i,
    {
        let ghost before = out@;
        assert(all.take(i + 1).drop_last() =~= all.take(i as int));
        assert(all.take(i + 1).last() == a@[i as int]@);
        if let Some(d) = parse_diagnostic(&a[i]) {
            out.push(d);
            assert(diagnostics_of(out@) =~= diagnostics_of(before).push(d@));
        }
        i += 1;
    }
    assert(all.take(i as int) =~= all);
    proof {
        ranking_commutes_with_maps(out@, |d: Diagnostic| d@);
    }
    Some((uri.to_owned(), sort_ranked(out)))
}

/// The text of one part of a hover answer: itself, or its `value`.
pub open spec fn hover_part(v: JsonView) -> Option<Seq<char>> {
    match v.text() {
        Some(t) => Some(t),
        None => v.text_field("value"@),
    }
}

fn parse_hover_part(v: &Json) -> (r: Option<&str>)
    ensures
        r is Some <==> hover_part(v@) is Some,
        r matches Some(t) ==> hover_part(v@) == Some(t@),
{
    match v.as_str() {
        Some(t) => Some(t),
        None => v.get_str("value"),
    }
}

/// The texts of the parts, with an empty line between them; nothing when no
/// part has a text.
pub open spec fn joined_parts(a: Seq<JsonView>) -> Option<Seq<char>>
    decreases a.len(),
{
    if a.len() == 0 {
        None
    } else {
        match (joined_parts(a.drop_last()), hover_part(a.last())) {
            (Some(t), Some(p)) => Some(t + "\n\n"@ + p),
            (None, p) => p,
            (t, None) => t,
        }
    }
}

/// What a hover answer says: one text or a list of them, without white space
/// around it; nothing when that leaves nothing.
pub open spec fn hover_text(v: JsonView) -> Option<Seq<char>> {
    let whole = match v.field("contents"@) {
        Some(JsonView::Array(a)) => joined_parts(a),
        Some(c) => hover_part(c),
        None => None,
    };
    match whole {
        Some(t) => if trimmed(t).len() == 0 {
            None
        } else {
            Some(trimmed(t))
        },
        None => None,
    }
}

fn join_parts(a: &Vec<Json>) -> (r: Option<String>)
    ensures
        opt_text(r) == joined_parts(json_views(a@)),
{
    let ghost all = json_views(a@);
    let mut out: Option<String> = None;
    proof {
        lemma_json_views(a@);
        assert(all.take(0) =~= Seq::<JsonView>::empty());
    }
    let mut i: usize = 0;
    while i < a.len()
        invariant
            i <= a@.len() == all.len(),
            forall|k: int| 0 <= k < a@.len() ==> #[trigger] all[k] == a@[k]@,
            opt_text(out) == joined_parts(all.take(i as int)),
        decreases a@.len() - i,
    {
        assert(all.take(i + 1).drop_last() =~= all.take(i as int));
        assert(all.take(i + 1).last() == a@[i as int]@);
        if let Some(p) = parse_hover_part(&a[i]) {
            out = match out {
                Some(t) => {
                    let sep = glue(t.as_str(), "\n\n");
                    Some(glue(sep.as_str(), p))
                },
                None => Some(p.to_owned()),
            };
        }
        i += 1;
    }
    assert(all.take(i as int) =~= all);
    out
}

/// Read a hover answer.
pub fn parse_hover_result(v: &Json) -> (r: Option<String>)
    ensures
        opt_text(r) == hover_text(v@),
{
    let contents = match v.get("contents") {
        Some(c) => c,
        None => {
            return None;
        },
    };
    let whole: Option<String> = match contents.as_array() {
        Some(a) => join_parts(a),
        None => match parse_hover_part(contents) {
            Some(t) => Some(t.to_owned()),
            None => None,
        },
    };
    match whole {
        Some(t) => {
            let s = trim(t.as_str());
            if s.as_str().is_empty() {
                None
            } else {
                Some(s)
            }
        },
        None => None,
    }
}

/// The first location of an answer: its first member, or the answer itself.
pub open spec fn first_location(v: JsonView) -> Option<JsonView> {
    match v {
        JsonView::Array(a) => if a.len() > 0 {
            Some(a[0])
        } else {
            None
        },
        JsonView::Null => None,
        _ => Some(v),
    }
}

/// The range of a link: the name's own, else the whole definition's.
pub open spec fn link_range(v: JsonView) -> Option<JsonView> {
    match v.field("targetSelectionRange"@) {
        Some(r) => Some(r),
        None => v.field("targetRange"@),
    }
}

/// The document and the range of a location or of a link to one.
pub open spec fn target_of(v: JsonView) -> Option<(Seq<char>, JsonView)> {
    let (uri, range) = match v.field("targetUri"@) {
        Some(u) => (u.text(), link_range(v)),
        None => (v.text_field("uri"@), v.field("range"@)),
    };
    match (uri, range) {
        (Some(u), Some(r)) => Some((u, r)),
        _ => None,
    }
}

/// Where a definition answer points to.
pub open spec fn location_in(v: JsonView) -> Option<LocationView> {
    match first_location(v) {
        Some(f) => match target_of(f) {
            Some(t) => match position_at_field(t.1, "start"@) {
                Some(p) => Some(LocationView { uri: t.0, line: p.0, character: p.1 }),
                None => None,
            },
            None => None,
        },
        None => None,
    }
}

pub open spec fn opt_location(o: Option<DefinitionLocation>) -> Option<LocationView> {
    match o {
        Some(l) => Some(l@),
        None => None,
    }
}

/// Read a definition answer: a location, a link, or a list that starts with
/// one.
pub fn parse_definition_result(v: &Json) -> (r: Option<DefinitionLocation>)
    ensures
        opt_location(r) == location_in(v@),
{
    let first: &Json = match v {
        Json::Array(a) => {
            proof {
                lemma_json_views(a@);
            }
            if a.len() == 0 {
                return None;
            }
            &a[0]
        },
        Json::Null => {
            return None;
        },
        _ => v,
    };
    assert(first_location(v@) == Some(first@));
    let (uri, range): (Option<&str>, Option<&Json>) = match first.get("targetUri") {
        Some(u) => (
            u.as_str(),
            match first.get("targetSelectionRange") {
                Some(r) => Some(r),
                None => first.get("targetRange"),
            },
        ),
        None => (first.get_str("uri"), first.get("range")),
    };
    match (uri, range) {
        (Some(u), Some(r)) => match get_position(r, "start") {
            Some(p) => Some(
                DefinitionLocation { uri: u.to_owned(), line: p.0, character: p.1 },
            ),
            None => None,
        },
        _ => None,
    }
}

/// The first characters of the texts in a list.
pub open spec fn first_chars(a: Seq<JsonView>) -> Seq<char>
    decreases a.len(),
{
    if a.len() == 0 {
        Seq::empty()
    } else {
        let rest = first_chars(a.drop_last());
        match a.last().text() {
            Some(t) => if t.len() > 0 {
                rest.push(t[0])
            } else {
                rest
            },
            None => rest,
        }
    }
}

/// A field of a field.
pub open spec fn deeper(o: Option<JsonView>, key: Seq<char>) -> Option<JsonView> {
    match o {
        Some(v) => v.field(key),
        None => None,
    }
}

/// The characters that the server wants completion requests for.
pub open spec fn declared_triggers(v: JsonView) -> Seq<char> {
    let list = deeper(
        deeper(v.field("capabilities"@), "completionProvider"@),
        "triggerCharacters"@,
    );
    match list {
        Some(JsonView::Array(a)) => first_chars(a),
        _ => Seq::empty(),
    }
}

fn get_deeper<'a>(o: Option<&'a Json>, key: &str) -> (r: Option<&'a Json>)
    ensures
        crate::json::opt_json(r) == deeper(crate::json::opt_json(o), key@),
{
    match o {
        Some(v) => v.get(key),
        None => None,
    }
}

/// Read the completion trigger characters out of the `initialize` answer.
pub fn parse_completion_trigger_chars(init_response: &Json) -> (r: Vec<char>)
    ensures
        r@ == declared_triggers(init_response@),
{
    let mut out: Vec<char> = Vec::new();
    let provider = get_deeper(init_response.get("capabilities"), "completionProvider");
    let list = get_deeper(provider, "triggerCharacters");
    let field = match list {
        Some(f) => f,
        None => {
            return out;
        },
    };
    let a = match field.as_array() {
        Some(a) => a,
        None => {
            return out;
        },
    };
    let ghost all = json_views(a@);
    proof {
        lemma_json_views(a@);
        assert(all.take(0) =~= Seq::<JsonView>::empty());
    }
    let mut i: usize = 0;
    while i < a.len()
        invariant
            i <= a@.len() == all.len(),
            forall|k: int| 0 <= k < a@.len() ==> #[trigger] all[k] == a@[k]@,
            out@ == first_chars(all.take(i as int)),
        decreases a@.len() - i,
    {
        assert(all.take(i + 1).drop_last() =~= all.take(i as int));
        assert(all.take(i + 1).last() == a@[i as int]@);
        if let Some(t) = a[i].as_str() {
            let chars = chars_of(t);
            if chars.len() > 0 {
                out.push(chars[0]);
            }
        }
        i += 1;
    }
    assert(all.take(i as int) =~= all);
    out
}

// ---------------------------------------------------------------------------
// Reading messages
// ---------------------------------------------------------------------------

pub open spec fn or_null(o: Option<JsonView>) -> JsonView {
    match o {
        Some(v) => v,
        None => JsonView::Null,
    }
}

/// The error that an error object describes.
pub open spec fn error_in(v: JsonView) -> ErrorView {
    ErrorView {
        code: match v.field("code"@) {
            Some(c) => match c.integer() {
                Some(n) => n,
                None => (-1) as i64,
            },
            None => (-1) as i64,
        },
        message: match v.text_field("message"@) {
            Some(m) => m,
            None => Seq::empty(),
        },
    }
}

/// What a body means. One with a method is a notification, even if it has an
/// id: requests of the server are not answered. One with an id alone is a
/// response. Anything else means nothing.
pub open spec fn message_in(v: JsonView) -> Option<MessageView> {
    match v.text_field("method"@) {
        Some(method) => Some(
            MessageView::Notification { method, params: or_null(v.field("params"@)) },
        ),
        None => match v.number_field("id"@) {
            Some(id) => Some(
                MessageView::Response {
                    id,
                    result: match v.field("error"@) {
                        Some(e) => Err(error_in(e)),
                        None => Ok(or_null(v.field("result"@))),
                    },
                },
            ),
            None => None,
        },
    }
}

fn copy_or_null(o: Option<&Json>) -> (r: Json)
    ensures
        r@ == or_null(crate::json::opt_json(o)),
{
    match o {
        Some(v) => copy_json(v),
        None => Json::Null,
    }
}

fn parse_error(v: &Json) -> (r: LspError)
    ensures
        r@ == error_in(v@),
{
    let code: i64 = match v.get("code") {
        Some(c) => match c.as_i64() {
            Some(n) => n,
            None => -1,
        },
        None => -1,
    };
    let message: String = match v.get_str("message") {
        Some(m) => m.to_owned(),
        None => String::new(),
    };
    LspError { code, message }
}

/// What a body means.
pub fn classify(v: &Json) -> (r: Option<Message>)
    ensures
        opt_message(r) == message_in(v@),
{
    match v.get_str("method") {
        Some(method) => Some(
            Message::Notification {
                method: method.to_owned(),
                params: copy_or_null(v.get("params")),
            },
        ),
        None => match v.get_u64("id") {
            Some(id) => {
                let result = match v.get("error") {
                    Some(e) => Err(parse_error(e)),
                    None => Ok(copy_or_null(v.get("result"))),
                };
                Some(Message::Response { id, result })
            },
            None => None,
        },
    }
}

/// Read a body. An error comes exactly when it is not JSON, and says why.
pub fn read_body(body: &[u8]) -> (r: Result<Option<Message>, String>)
    ensures
        match r {
            Ok(m) => parsed_json(body@) matches Ok(v) && opt_message(m) == message_in(v),
            Err(e) => parsed_json(body@) == Err::<JsonView, Seq<char>>(e@),
        },
{
    match json_from_slice(body) {
        Ok(v) => Ok(classify(&v)),
        Err(e) => Err(e),
    }
}

/// What a message means while the answer to `initialize` is awaited.
pub enum InitStep {
    /// Something else: read on.
    Wait,
    /// The server is ready; these are its completion triggers.
    Ready(Vec<char>),
    /// The server refused, with this text.
    Refused(String),
    /// The server closed the pipe.
    Closed,
}

pub enum InitView {
    Wait,
    Ready(Seq<char>),
    Refused(Seq<char>),
    Closed,
}

impl View for InitStep {
    type V = InitView;

    open spec fn view(&self) -> InitView {
        match self {
            InitStep::Wait => InitView::Wait,
            InitStep::Ready(c) => InitView::Ready(c@),
            InitStep::Refused(m) => InitView::Refused(m@),
            InitStep::Closed => InitView::Closed,
        }
    }
}

/// The id of the `initialize` request.
pub const INIT_ID: u64 = 1;

pub open spec fn init_step_of(m: Option<MessageView>) -> InitView {
    match m {
        None => InitView::Closed,
        Some(MessageView::Response { id, result }) => if id == INIT_ID {
            match result {
                Ok(v) => InitView::Ready(declared_triggers(v)),
                Err(e) => InitView::Refused("LSP init error: "@ + e.message),
            }
        } else {
            InitView::Wait
        },
        Some(_) => InitView::Wait,
    }
}

/// What a message means while the answer to `initialize` is awaited.
pub fn init_step(m: Option<Message>) -> (r: InitStep)
    ensures
        r@ == init_step_of(opt_message(m)),
{
    match m {
        None => InitStep::Closed,
        Some(Message::Response { id, result }) => {
            if id != INIT_ID {
                InitStep::Wait
            } else {
                match result {
                    Ok(v) => InitStep::Ready(parse_completion_trigger_chars(&v)),
                    Err(e) => InitStep::Refused(glue("LSP init error: ", e.message.as_str())),
                }
            }
        },
        Some(_) => InitStep::Wait,
    }
}

/// The bytes of the `initialize` request.
pub fn initialize(process_id: u32, root_uri: &str) -> (r: Vec<u8>)
    ensures
        r@ == sent_as(
            request_json(INIT_ID, "initialize"@, initialize_json(process_id, root_uri@)),
        ),
{
    request(INIT_ID, "initialize", initialize_params(process_id, root_uri))
}

/// The bytes of the `initialized` notification.
pub fn initialized() -> (r: Vec<u8>)
    ensures
        r@ == sent_as(notification_json("initialized"@, JsonView::Object(Seq::empty()))),
{
    notification("initialized", Json::object())
}

// ---------------------------------------------------------------------------
// The client
// ---------------------------------------------------------------------------

/// What a request was for.
#[derive(Clone, Copy, Debug, PartialEq, Eq, Structural)]
pub enum PendingKind {
    Hover,
    Definition,
    Completion,
}

/// What the editor learns from a message.
#[allow(inconsistent_fields)]
pub enum LspEvent {
    Hover { id: u64, result: Result<Option<String>, LspError> },
    Definition { id: u64, result: Result<Option<DefinitionLocation>, LspError> },
    /// The items are read by the completion module.
    Completion { id: u64, result: Result<Json, LspError> },
    DiagnosticsUpdated { uri: String },
}

#[allow(inconsistent_fields)]
pub enum EventView {
    Hover { id: u64, result: Result<Option<Seq<char>>, ErrorView> },
    Definition { id: u64, result: Result<Option<LocationView>, ErrorView> },
    Completion { id: u64, result: Result<JsonView, ErrorView> },
    DiagnosticsUpdated { uri: Seq<char> },
}

impl View for LspEvent {
    type V = EventView;

    open spec fn view(&self) -> EventView {
        match self {
            LspEvent::Hover { id, result } => EventView::Hover {
                id: *id,
                result: match *result {
                    Ok(t) => Ok(opt_text(t)),
                    Err(e) => Err(e@),
                },
            },
            LspEvent::Definition { id, result } => EventView::Definition {
                id: *id,
                result: match *result {
                    Ok(l) => Ok(opt_location(l)),
                    Err(e) => Err(e@),
                },
            },
            LspEvent::Completion { id, result } => EventView::Completion {
                id: *id,
                result: answer_of(*result),
            },
            LspEvent::DiagnosticsUpdated { uri } => EventView::DiagnosticsUpdated { uri: uri@ },
        }
    }
}

pub open spec fn opt_event(o: Option<LspEvent>) -> Option<EventView> {
    match o {
        Some(e) => Some(e@),
        None => None,
    }
}

/// The client's state.
pub struct LspClient {
    /// The id of the next request.
    pub next_id: u64,
    /// What was last published for each document.
    pub diagnostics: Vec<(String, Vec<Diagnostic>)>,
    /// The requests that are not answered yet.
    pub pending: HashMap<u64, PendingKind>,
    /// The characters that the server wants completion requests for.
    pub completion_trigger_chars: Vec<char>,
}

#[verifier::ext_equal]
pub struct ClientView {
    pub next_id: u64,
    pub diagnostics: Map<Seq<char>, Seq<DiagnosticView>>,
    pub pending: Map<u64, PendingKind>,
    pub triggers: Seq<char>,
}

pub open spec fn diagnostics_map(s: Seq<(String, Vec<Diagnostic>)>) -> Map<
    Seq<char>,
    Seq<DiagnosticView>,
>
    decreases s.len(),
{
    if s.len() == 0 {
        Map::empty()
    } else {
        diagnostics_map(s.drop_last()).insert(s.last().0@, diagnostics_of(s.last().1@))
    }
}

impl View for LspClient {
    type V = ClientView;

    open spec fn view(&self) -> ClientView {
        ClientView {
            next_id: self.next_id,
            diagnostics: diagnostics_map(self.diagnostics@),
            pending: self.pending@,
            triggers: self.completion_trigger_chars@,
        }
    }
}

/// What an answer to a request of this kind tells the editor.
pub open spec fn answer_event(
    kind: PendingKind,
    id: u64,
    result: Result<JsonView, ErrorView>,
) -> EventView {
    match kind {
        PendingKind::Hover => EventView::Hover {
            id,
            result: match result {
                Ok(v) => Ok(hover_text(v)),
                Err(e) => Err(e),
            },
        },
        PendingKind::Definition => EventView::Definition {
            id,
            result: match result {
                Ok(v) => Ok(location_in(v)),
                Err(e) => Err(e),
            },
        },
        PendingKind::Completion => EventView::Completion { id, result },
    }
}

impl ClientView {
    /// The client and what the editor learns, once a message was handled.
    pub open spec fn handled(self, m: MessageView) -> (ClientView, Option<EventView>) {
        match m {
            MessageView::Notification { method, params } => match published(params) {
                Some(p) => if method == "textDocument/publishDiagnostics"@ {
                    (
                        ClientView { diagnostics: self.diagnostics.insert(p.0, p.1), ..self },
                        Some(EventView::DiagnosticsUpdated { uri: p.0 }),
                    )
                } else {
                    (self, None)
                },
                None => (self, None),
            },
            MessageView::Response { id, result } => if self.pending.contains_key(id) {
                (
                    ClientView { pending: self.pending.remove(id), ..self },
                    Some(answer_event(self.pending[id], id, result)),
                )
            } else {
                (self, None)
            },
        }
    }

    /// What was last published for a document.
    pub open spec fn diagnostics_of(self, uri: Seq<char>) -> Seq<DiagnosticView> {
        if self.diagnostics.contains_key(uri) {
            self.diagnostics[uri]
        } else {
            Seq::empty()
        }
    }

    pub open spec fn next(self) -> ClientView {
        ClientView { next_id: (self.next_id + 1) as u64, ..self }
    }
}

/// A request on its way out.
pub struct Outgoing {
    pub id: u64,
    pub kind: PendingKind,
    pub bytes: Vec<u8>,
}

proof fn lemma_diagnostics_update(
    s: Seq<(String, Vec<Diagnostic>)>,
    i: int,
    x: (String, Vec<Diagnostic>),
)
    requires
        0 <= i < s.len(),
        s[i].0@ == x.0@,
        forall|j: int| i < j < s.len() ==> (#[trigger] s[j]).0@ != x.0@,
    ensures
        diagnostics_map(s.update(i, x)) == diagnostics_map(s).insert(x.0@, diagnostics_of(x.1@)),
    decreases s.len(),
{
    let t = s.drop_last();
    let u = s.update(i, x);
    if i == s.len() - 1 {
        assert(u.drop_last() =~= t);
        assert(diagnostics_map(u) =~= diagnostics_map(s).insert(x.0@, diagnostics_of(x.1@)));
    } else {
        lemma_diagnostics_update(t, i, x);
        assert(u.drop_last() =~= t.update(i, x));
        assert(s[s.len() - 1].0@ != x.0@);
        assert(diagnostics_map(u) =~= diagnostics_map(s).insert(x.0@, diagnostics_of(x.1@)));
    }
}

impl LspClient {
    /// The client of a server that answered `initialize`.
    pub fn new(completion_trigger_chars: Vec<char>) -> (r: LspClient)
        ensures
            r@ == (ClientView {
                next_id: 2,
                diagnostics: Map::empty(),
                pending: Map::empty(),
                triggers: completion_trigger_chars@,
            }),
    {
        LspClient {
            next_id: INIT_ID + 1,
            diagnostics: Vec::new(),
            pending: HashMap::new(),
            completion_trigger_chars,
        }
    }

    fn publish(&mut self, uri: String, found: Vec<Diagnostic>)
        ensures
            final(self)@ == (ClientView {
                diagnostics: old(self)@.diagnostics.insert(uri@, diagnostics_of(found@)),
                ..old(self)@
            }),
    {
        let ghost before = self.diagnostics@;
        let n: usize = self.diagnostics.len();
        let mut i: usize = n;
        while i > 0
            invariant
                i <= n == before.len(),
                self.diagnostics@ == before,
                *self == *old(self),
                forall|j: int| i <= j < n ==> (#[trigger] before[j]).0@ != uri@,
            decreases i,
        {
            if str_eq(self.diagnostics[i - 1].0.as_str(), uri.as_str()) {
                proof {
                    lemma_diagnostics_update(before, i - 1, (uri, found));
                }
                self.diagnostics.set(i - 1, (uri, found));
                return;
            }
            i -= 1;
        }
        self.diagnostics.push((uri, found));
        assert(self.diagnostics@.drop_last() =~= before);
    }

    /// Handle a message of the server. The answer to a pending request gives
    /// one event and settles the request; published diagnostics replace those
    /// of their document and give one event; all else is dropped.
    pub fn handle_message(&mut self, msg: Message) -> (r: Option<LspEvent>)
        ensures
            (final(self)@, opt_event(r)) == old(self)@.handled(msg@),
    {
        match msg {
            Message::Notification { method, params } => {
                if str_eq(method.as_str(), "textDocument/publishDiagnostics") {
                    if let Some((uri, found)) = parse_publish_diagnostics(&params) {
                        let name = uri.clone();
                        self.publish(uri, found);
                        return Some(LspEvent::DiagnosticsUpdated { uri: name });
                    }
                }
                None
            },
            Message::Response { id, result } => {
                match self.pending.remove(&id) {
                    Some(kind) => Some(
                        match kind {
                            PendingKind::Hover => LspEvent::Hover {
                                id,
                                result: match result {
                                    Ok(v) => Ok(parse_hover_result(&v)),
                                    Err(e) => Err(e),
                                },
                            },
                            PendingKind::Definition => LspEvent::Definition {
                                id,
                                result: match result {
                                    Ok(v) => Ok(parse_definition_result(&v)),
                                    Err(e) => Err(e),
                                },
                            },
                            PendingKind::Completion => LspEvent::Completion { id, result },
                        },
                    ),
                    None => {
                        assert(self@ =~= old(self)@);
                        None
                    },
                }
            },
        }
    }

    /// What was last published for a document, in the order of its text.
    pub fn diagnostics_for(&self, uri: &str) -> (r: &[Diagnostic])
        ensures
            diagnostics_of(r@) == self@.diagnostics_of(uri@),
    {
        let n: usize = self.diagnostics.len();
        let mut i: usize = n;
        assert(self.diagnostics@.take(n as int) =~= self.diagnostics@);
        while i > 0
            invariant
                i <= n == self.diagnostics@.len(),
                diagnostics_map(self.diagnostics@.take(i as int)).contains_key(uri@)
                    == self@.diagnostics.contains_key(uri@),
                self@.diagnostics.contains_key(uri@) ==> diagnostics_map(
                    self.diagnostics@.take(i as int),
                )[uri@] == self@.diagnostics[uri@],
            decreases i,
        {
            assert(self.diagnostics@.take(i as int).drop_last() =~= self.diagnostics@.take(i - 1));
            if str_eq(self.diagnostics[i - 1].0.as_str(), uri) {
                return self.diagnostics[i - 1].1.as_slice();
            }
            i -= 1;
        }
        assert(self.diagnostics@.take(0) =~= Seq::<(String, Vec<Diagnostic>)>::empty());
        let none: &[Diagnostic] = &[];
        assert(diagnostics_of(none@) =~= Seq::<DiagnosticView>::empty());
        none
    }

    fn begin(&mut self, kind: PendingKind, method: &str, params: Json) -> (r: Outgoing)
        requires
            old(self).next_id < u64::MAX,
        ensures
            final(self)@ == old(self)@.next(),
            r.id == old(self).next_id,
            r.kind == kind,
            r.bytes@ == sent_as(request_json(r.id, method@, params@)),
    {
        let id: u64 = self.next_id;
        self.next_id = id + 1;
        Outgoing { id, kind, bytes: request(id, method, params) }
    }

    /// A `textDocument/definition` request. It is pending once it was `sent`.
    pub fn definition_async(&mut self, uri: &str, line: u32, character: u32) -> (r: Outgoing)
        requires
            old(self).next_id < u64::MAX,
        ensures
            final(self)@ == old(self)@.next(),
            r.id == old(self).next_id,
            r.kind == PendingKind::Definition,
            r.bytes@ == sent_as(
                request_json(r.id, "textDocument/definition"@, place_json(uri@, line, character)),
            ),
    {
        self.begin(PendingKind::Definition, "textDocument/definition", place(uri, line, character))
    }

    /// A `textDocument/hover` request. It is pending once it was `sent`.
    pub fn hover_async(&mut self, uri: &str, line: u32, character: u32) -> (r: Outgoing)
        requires
            old(self).next_id < u64::MAX,
        ensures
            final(self)@ == old(self)@.next(),
            r.id == old(self).next_id,
            r.kind == PendingKind::Hover,
            r.bytes@ == sent_as(
                request_json(r.id, "textDocument/hover"@, place_json(uri@, line, character)),
            ),
    {
        self.begin(PendingKind::Hover, "textDocument/hover", place(uri, line, character))
    }

    /// A `textDocument/completion` request. It is pending once it was `sent`.
    pub fn completion_async(
        &mut self,
        uri: &str,
        line: u32,
        character: u32,
        trigger: CompletionTrigger,
    ) -> (r: Outgoing)
        requires
            old(self).next_id < u64::MAX,
        ensures
            final(self)@ == old(self)@.next(),
            r.id == old(self).next_id,
            r.kind == PendingKind::Completion,
            r.bytes@ == sent_as(
                request_json(
                    r.id,
                    "textDocument/completion"@,
                    completion_json(uri@, line, character, trigger),
                ),
            ),
    {
        self.begin(
            PendingKind::Completion,
            "textDocument/completion",
            completion_params(uri, line, character, trigger),
        )
    }

    /// Note that a request went out: an answer to it is awaited.
    pub fn sent(&mut self, out: &Outgoing)
        ensures
            final(self)@ == (ClientView {
                pending: old(self)@.pending.insert(out.id, out.kind),
                ..old(self)@
            }),
    {
        self.pending.insert(out.id, out.kind);
    }

    /// The bytes of `textDocument/didChange` with the whole text.
    pub fn did_change(&self, uri: &str, version: u64, text: &str) -> (r: Vec<u8>)
        ensures
            r@ == sent_as(
                notification_json("textDocument/didChange"@, changed_json(uri@, version, text@)),
            ),
    {
        notification("textDocument/didChange", changed(uri, version, text))
    }

    /// The bytes of `textDocument/didOpen`.
    pub fn did_open(&self, uri: &str, language_id: &str, text: &str) -> (r: Vec<u8>)
        ensures
            r@ == sent_as(
                notification_json(
                    "textDocument/didOpen"@,
                    opened_json(uri@, language_id@, text@),
                ),
            ),
    {
        notification("textDocument/didOpen", opened(uri, language_id, text))
    }

    /// Whether any request is not answered yet.
    pub fn has_outstanding(&self) -> (r: bool)
        ensures
            r == !self@.pending.is_empty(),
    {
        !self.pending.is_empty()
    }

    /// The characters that the server wants completion requests for.
    pub fn completion_trigger_chars(&self) -> (r: &[char])
        ensures
            r@ == self@.triggers,
    {
        self.completion_trigger_chars.as_slice()
    }

    /// The bytes that end the session: the `shutdown` request and the `exit`
    /// notification.
    pub fn shutdown(&mut self) -> (r: (Vec<u8>, Vec<u8>))
        requires
            old(self).next_id < u64::MAX,
        ensures
            final(self)@ == old(self)@.next(),
            r.0@ == sent_as(request_json(old(self).next_id, "shutdown"@, JsonView::Null)),
            r.1@ == sent_as(notification_json("exit"@, JsonView::Null)),
    {
        let id: u64 = self.next_id;
        self.next_id = id + 1;
        (request(id, "shutdown", Json::Null), notification("exit", Json::Null))
    }
}

// ---------------------------------------------------------------------------
// URIs
// ---------------------------------------------------------------------------

/// The `file://` URI of an absolute path.
pub fn path_to_uri(abs: &str) -> (r: String)
    ensures
        r@ == "file://"@ + abs@,
{
    glue("file://", abs)
}

/// The path of a `file://` URI; nothing for any other.
pub fn uri_to_path(uri: &str) -> (r: Option<String>)
    ensures
        r is Some <==> has_prefix(uri@, "file://"@),
        r matches Some(p) ==> p@ == uri@.skip("file://"@.len() as int),
{
    strip_prefix(uri, "file://")
}

// ---------------------------------------------------------------------------
// Laws
// ---------------------------------------------------------------------------

/// The path of a URI that was made from a path is that path.
pub proof fn uris_lead_back(path: Seq<char>)
    ensures
        has_prefix("file://"@ + path, "file://"@),
        ("file://"@ + path).skip("file://"@.len() as int) == path,
{
    let p = "file://"@;
    assert((p + path).take(p.len() as int) =~= p);
    assert((p + path).skip(p.len() as int) =~= path);
}

/// A request is answered once: a second answer with its id is dropped.
pub proof fn answers_settle_requests(
    c: ClientView,
    id: u64,
    first: Result<JsonView, ErrorView>,
    second: Result<JsonView, ErrorView>,
)
    ensures
        ({
            let after = c.handled(MessageView::Response { id, result: first }).0;
            after.handled(MessageView::Response { id, result: second }) == (
                after,
                None::<EventView>,
            )
        }),
{
}

/// Publishing diagnostics replaces what was known of that document, and of no
/// other.
pub proof fn publishing_replaces(c: ClientView, params: JsonView, other: Seq<char>)
    requires
        published(params) is Some,
    ensures
        ({
            let m = MessageView::Notification {
                method: "textDocument/publishDiagnostics"@,
                params,
            };
            let (uri, found) = published(params)->0;
            let after = c.handled(m).0;
            &&& after.diagnostics_of(uri) == found
            &&& other != uri ==> after.diagnostics_of(other) == c.diagnostics_of(other)
            &&& after.pending == c.pending
        }),
{
}

/// Published diagnostics are kept in the order of the text.
pub proof fn diagnostics_are_in_text_order(params: JsonView)
    requires
        published(params) is Some,
    ensures
        crate::sort::is_ranked((published(params)->0).1),
{
    match params.field("diagnostics"@) {
        Some(JsonView::Array(a)) => {
            crate::sort::ranked_is_a_ranked_permutation(diagnostics_in(a));
        },
        _ => {},
    }
}

proof fn lemma_names_differ()
    ensures
        "line"@ != "character"@,
        "start"@ != "end"@,
        "range"@ != "severity"@,
        "range"@ != "message"@,
        "range"@ != "source"@,
        "severity"@ != "message"@,
        "severity"@ != "source"@,
        "message"@ != "source"@,
        "uri"@ != "range"@,
        "uri"@ != "targetUri"@,
        "range"@ != "targetUri"@,
        "targetUri"@ != "targetRange"@,
        "targetUri"@ != "targetSelectionRange"@,
        "targetRange"@ != "targetSelectionRange"@,
        "kind"@ != "value"@,
        "jsonrpc"@ != "id"@,
        "jsonrpc"@ != "method"@,
        "jsonrpc"@ != "result"@,
        "jsonrpc"@ != "error"@,
        "id"@ != "method"@,
        "id"@ != "result"@,
        "id"@ != "error"@,
        "method"@ != "result"@,
        "method"@ != "error"@,
        "result"@ != "error"@,
        "code"@ != "message"@,
{
    reveal_strlit("line");
    reveal_strlit("character");
    reveal_strlit("start");
    reveal_strlit("end");
    reveal_strlit("range");
    reveal_strlit("severity");
    reveal_strlit("message");
    reveal_strlit("source");
    reveal_strlit("uri");
    reveal_strlit("targetUri");
    reveal_strlit("targetRange");
    reveal_strlit("targetSelectionRange");
    reveal_strlit("kind");
    reveal_strlit("value");
    reveal_strlit("jsonrpc");
    reveal_strlit("id");
    reveal_strlit("method");
    reveal_strlit("result");
    reveal_strlit("error");
    reveal_strlit("code");
    assert("line"@.len() == 4 && "line"@[0] == 'l');
    assert("character"@.len() == 9 && "character"@[0] == 'c');
    assert("start"@.len() == 5 && "start"@[0] == 's');
    assert("end"@.len() == 3 && "end"@[0] == 'e');
    assert("range"@.len() == 5 && "range"@[0] == 'r');
    assert("severity"@.len() == 8 && "severity"@[0] == 's');
    assert("message"@.len() == 7 && "message"@[0] == 'm');
    assert("source"@.len() == 6 && "source"@[0] == 's');
    assert("uri"@.len() == 3 && "uri"@[0] == 'u');
    assert("targetUri"@.len() == 9 && "targetUri"@[0] == 't');
    assert("targetRange"@.len() == 11 && "targetRange"@[0] == 't');
    assert("targetSelectionRange"@.len() == 20 && "targetSelectionRange"@[0] == 't');
    assert("kind"@.len() == 4 && "kind"@[0] == 'k');
    assert("value"@.len() == 5 && "value"@[0] == 'v');
    assert("jsonrpc"@.len() == 7 && "jsonrpc"@[0] == 'j');
    assert("id"@.len() == 2 && "id"@[0] == 'i');
    assert("method"@.len() == 6 && "method"@[0] == 'm');
    assert("result"@.len() == 6 && "result"@[0] == 'r');
    assert("error"@.len() == 5 && "error"@[0] == 'e');
    assert("code"@.len() == 4 && "code"@[0] == 'c');
}

/// Two named values.
spec fn pair_json(a: Seq<char>, x: JsonView, b: Seq<char>, y: JsonView) -> JsonView {
    JsonView::Object(seq![(a, x), (b, y)])
}

proof fn lemma_pair(a: Seq<char>, x: JsonView, b: Seq<char>, y: JsonView, other: Seq<char>)
    requires
        a != b,
    ensures
        pair_json(a, x, b, y).field(a) == Some(x),
        pair_json(a, x, b, y).field(b) == Some(y),
        other != a && other != b ==> pair_json(a, x, b, y).field(other) is None,
{
    let fs = seq![(a, x), (b, y)];
    the_last_field_of_a_name_counts(fs, 0, a);
    the_last_field_of_a_name_counts(fs, 1, b);
    the_last_field_of_a_name_counts(fs, 0, other);
}

/// A position as servers write it.
pub open spec fn written_position(line: u32, character: u32) -> JsonView {
    JsonView::Object(
        seq![
            ("line"@, JsonView::Unsigned(line as u64)),
            ("character"@, JsonView::Unsigned(character as u64)),
        ],
    )
}

/// A range as servers write it.
pub open spec fn written_range(from: (u32, u32), to: (u32, u32)) -> JsonView {
    JsonView::Object(
        seq![
            ("start"@, written_position(from.0, from.1)),
            ("end"@, written_position(to.0, to.1)),
        ],
    )
}

proof fn lemma_range_is_read(from: (u32, u32), to: (u32, u32))
    ensures
        position_at_field(written_range(from, to), "start"@) == Some(from),
        position_at_field(written_range(from, to), "end"@) == Some(to),
{
    lemma_names_differ();
    let line = "line"@;
    let character = "character"@;
    lemma_pair(
        line,
        JsonView::Unsigned(from.0 as u64),
        character,
        JsonView::Unsigned(from.1 as u64),
        line,
    );
    lemma_pair(
        line,
        JsonView::Unsigned(to.0 as u64),
        character,
        JsonView::Unsigned(to.1 as u64),
        line,
    );
    lemma_pair(
        "start"@,
        written_position(from.0, from.1),
        "end"@,
        written_position(to.0, to.1),
        line,
    );
}

/// The number of a severity in the protocol.
pub open spec fn severity_number(s: DiagnosticSeverity) -> u64 {
    match s {
        DiagnosticSeverity::Error => 1,
        DiagnosticSeverity::Warning => 2,
        DiagnosticSeverity::Information => 3,
        DiagnosticSeverity::Hint => 4,
    }
}

/// A diagnostic that a server writes is read back whole; one without a severity
/// is an error.
pub proof fn diagnostics_are_read_back(d: DiagnosticView, source: Seq<char>)
    requires
        d.source == Some(source),
    ensures
        ({
            let range = written_range(
                (d.start_line, d.start_character),
                (d.end_line, d.end_character),
            );
            let rest = seq![("message"@, JsonView::Str(d.message)), ("source"@, JsonView::Str(source))];
            let told = ("severity"@, JsonView::Unsigned(severity_number(d.severity)));
            &&& diagnostic_in(JsonView::Object(seq![("range"@, range), told] + rest)) == Some(d)
            &&& diagnostic_in(JsonView::Object(seq![("range"@, range)] + rest)) == Some(
                DiagnosticView { severity: DiagnosticSeverity::Error, ..d },
            )
        }),
{
    lemma_names_differ();
    let (from, to) = ((d.start_line, d.start_character), (d.end_line, d.end_character));
    let range = written_range(from, to);
    lemma_range_is_read(from, to);
    let rest = seq![("message"@, JsonView::Str(d.message)), ("source"@, JsonView::Str(source))];
    let told = ("severity"@, JsonView::Unsigned(severity_number(d.severity)));
    let fs = seq![("range"@, range), told] + rest;
    let gs = seq![("range"@, range)] + rest;
    the_last_field_of_a_name_counts(fs, 0, "range"@);
    the_last_field_of_a_name_counts(fs, 1, "severity"@);
    the_last_field_of_a_name_counts(fs, 2, "message"@);
    the_last_field_of_a_name_counts(fs, 3, "source"@);
    the_last_field_of_a_name_counts(gs, 0, "range"@);
    the_last_field_of_a_name_counts(gs, 0, "severity"@);
    the_last_field_of_a_name_counts(gs, 1, "message"@);
    the_last_field_of_a_name_counts(gs, 2, "source"@);
    assert(fs[1] == told && fs[2] == rest[0] && fs[3] == rest[1]);
    assert(gs[1] == rest[0] && gs[2] == rest[1]);
    assert(diagnostic_in(JsonView::Object(fs)) == Some(d));
}

/// A definition is read from a location or from a link, alone or as the first of
/// several; it is where the range starts.
pub proof fn definitions_are_read_back(
    uri: Seq<char>,
    from: (u32, u32),
    to: (u32, u32),
    more: Seq<JsonView>,
)
    ensures
        ({
            let range = written_range(from, to);
            let plain = JsonView::Object(seq![("uri"@, JsonView::Str(uri)), ("range"@, range)]);
            let link = JsonView::Object(
                seq![("targetUri"@, JsonView::Str(uri)), ("targetSelectionRange"@, range)],
            );
            let found = Some(LocationView { uri, line: from.0, character: from.1 });
            &&& location_in(plain) == found
            &&& location_in(link) == found
            &&& location_in(JsonView::Array(seq![plain] + more)) == found
            &&& location_in(JsonView::Array(seq![link] + more)) == found
            &&& location_in(JsonView::Null) is None
            &&& location_in(JsonView::Array(Seq::empty())) is None
        }),
{
    lemma_names_differ();
    let range = written_range(from, to);
    lemma_range_is_read(from, to);
    let text = JsonView::Str(uri);
    lemma_pair("uri"@, text, "range"@, range, "targetUri"@);
    lemma_pair("targetUri"@, text, "targetSelectionRange"@, range, "targetRange"@);
    let plain = JsonView::Object(seq![("uri"@, text), ("range"@, range)]);
    let link = JsonView::Object(seq![("targetUri"@, text), ("targetSelectionRange"@, range)]);
    assert((seq![plain] + more)[0] == plain);
    assert((seq![link] + more)[0] == link);
}

/// What a server shows for a name is read from a plain text, from a marked-up one
/// or from several, without the white space around it.
pub proof fn hover_texts_are_read(t: Seq<char>, u: Seq<char>, kind: Seq<char>)
    requires
        trimmed(t).len() > 0,
        trimmed(t + "\n\n"@ + u).len() > 0,
    ensures
        ({
            let alone = |v: JsonView| JsonView::Object(seq![("contents"@, v)]);
            let marked = JsonView::Object(
                seq![("kind"@, JsonView::Str(kind)), ("value"@, JsonView::Str(t))],
            );
            &&& hover_text(alone(JsonView::Str(t))) == Some(trimmed(t))
            &&& hover_text(alone(marked)) == Some(trimmed(t))
            &&& hover_text(alone(JsonView::Array(seq![marked, JsonView::Str(u)]))) == Some(
                trimmed(t + "\n\n"@ + u),
            )
            &&& hover_text(alone(JsonView::Array(Seq::empty()))) is None
        }),
{
    lemma_names_differ();
    let marked = JsonView::Object(
        seq![("kind"@, JsonView::Str(kind)), ("value"@, JsonView::Str(t))],
    );
    lemma_pair("kind"@, JsonView::Str(kind), "value"@, JsonView::Str(t), "kind"@);
    let both = seq![marked, JsonView::Str(u)];
    the_last_field_of_a_name_counts(
        seq![("contents"@, JsonView::Str(t))],
        0,
        "contents"@,
    );
    the_last_field_of_a_name_counts(seq![("contents"@, marked)], 0, "contents"@);
    the_last_field_of_a_name_counts(
        seq![("contents"@, JsonView::Array(both))],
        0,
        "contents"@,
    );
    the_last_field_of_a_name_counts(
        seq![("contents"@, JsonView::Array(Seq::empty()))],
        0,
        "contents"@,
    );
    reveal_with_fuel(joined_parts, 3);
    assert(both.last() == JsonView::Str(u));
    assert(both.drop_last().last() == marked);
    assert(both.drop_last().drop_last() =~= Seq::<JsonView>::empty());
}

/// What has a method is a notification; what has none but an id is the answer to
/// that request, a failure if it tells of an error.
pub proof fn messages_are_told_apart(
    id: u64,
    result: JsonView,
    code: i64,
    text: Seq<char>,
    method: Seq<char>,
)
    ensures
        ({
            let error = JsonView::Object(
                seq![("code"@, JsonView::Signed(code)), ("message"@, JsonView::Str(text))],
            );
            let head = seq![("jsonrpc"@, JsonView::Str("2.0"@)), ("id"@, JsonView::Unsigned(id))];
            &&& message_in(JsonView::Object(head.push(("result"@, result)))) == Some(
                MessageView::Response { id, result: Ok(result) },
            )
            &&& message_in(JsonView::Object(head.push(("error"@, error)))) == Some(
                MessageView::Response { id, result: Err(ErrorView { code, message: text }) },
            )
            &&& message_in(JsonView::Object(head.push(("method"@, JsonView::Str(method)))))
                matches Some(MessageView::Notification { method: m, params }) && m == method
        }),
{
    lemma_names_differ();
    let error = JsonView::Object(
        seq![("code"@, JsonView::Signed(code)), ("message"@, JsonView::Str(text))],
    );
    lemma_pair("code"@, JsonView::Signed(code), "message"@, JsonView::Str(text), "id"@);
    let head = seq![("jsonrpc"@, JsonView::Str("2.0"@)), ("id"@, JsonView::Unsigned(id))];
    let a = head.push(("result"@, result));
    let b = head.push(("error"@, error));
    let c = head.push(("method"@, JsonView::Str(method)));
    the_last_field_of_a_name_counts(a, 0, "method"@);
    the_last_field_of_a_name_counts(a, 1, "id"@);
    the_last_field_of_a_name_counts(a, 0, "error"@);
    the_last_field_of_a_name_counts(a, 2, "result"@);
    the_last_field_of_a_name_counts(b, 0, "method"@);
    the_last_field_of_a_name_counts(b, 1, "id"@);
    the_last_field_of_a_name_counts(b, 2, "error"@);
    the_last_field_of_a_name_counts(c, 2, "method"@);
}

/// The answer to a request is reported as what was asked for, with its id.
pub proof fn answers_are_what_was_asked_for(
    c: ClientView,
    id: u64,
    result: Result<JsonView, ErrorView>,
)
    requires
        c.pending.contains_key(id),
    ensures
        ({
            let event = c.handled(MessageView::Response { id, result }).1;
            match c.pending[id] {
                PendingKind::Hover => event matches Some(EventView::Hover { id: i, result: r }) && i
                    == id && (result matches Ok(v) ==> r == Ok::<_, ErrorView>(hover_text(v))) && (
                result matches Err(e) ==> r == Err::<Option<Seq<char>>, _>(e)),
                PendingKind::Definition => event matches Some(
                    EventView::Definition { id: i, result: r },
                ) && i == id && (result matches Ok(v) ==> r == Ok::<_, ErrorView>(location_in(v))) && (
                result matches Err(e) ==> r == Err::<Option<LocationView>, _>(e)),
                PendingKind::Completion => event == Some(EventView::Completion { id, result }),
            }
        }),
{
}

/// Only the answer to the first request ends the wait for a server: it is ready,
/// or it refused.
pub proof fn the_first_answer_ends_the_wait(id: u64, result: Result<JsonView, ErrorView>)
    ensures
        ({
            let step = init_step_of(Some(MessageView::Response { id, result }));
            &&& id != 1 ==> step is Wait
            &&& id == 1 ==> (step is Ready <==> result is Ok) && (step is Refused <==> result is Err)
            &&& init_step_of(None) is Closed
        }),
{
}

/// The characters that a server wants completion requests for are the first ones
/// of the texts that it declares.
pub proof fn triggers_are_declared_by_the_server(a: Seq<JsonView>, c: char, rest: Seq<char>)
    ensures
        ({
            let provider = JsonView::Object(seq![("triggerCharacters"@, JsonView::Array(a))]);
            let able = JsonView::Object(seq![("completionProvider"@, provider)]);
            declared_triggers(JsonView::Object(seq![("capabilities"@, able)])) == first_chars(a)
        }),
        first_chars(Seq::empty()).len() == 0,
        first_chars(a.push(JsonView::Str(seq![c] + rest))) == first_chars(a).push(c),
{
    let provider = JsonView::Object(seq![("triggerCharacters"@, JsonView::Array(a))]);
    let able = JsonView::Object(seq![("completionProvider"@, provider)]);
    the_last_field_of_a_name_counts(
        seq![("triggerCharacters"@, JsonView::Array(a))],
        0,
        "triggerCharacters"@,
    );
    the_last_field_of_a_name_counts(
        seq![("completionProvider"@, provider)],
        0,
        "completionProvider"@,
    );
    the_last_field_of_a_name_counts(seq![("capabilities"@, able)], 0, "capabilities"@);
    let t = seq![c] + rest;
    assert(a.push(JsonView::Str(t)).drop_last() =~= a);
    assert(t[0] == c);
}

/// Published diagnostics are those that were sent, ordered by the line and then by
/// the character that they start at.
pub proof fn diagnostics_are_ordered_by_their_start(params: JsonView, a: Seq<JsonView>, i: int, j: int)
    requires
        published(params) is Some,
        params.field("diagnostics"@) == Some(JsonView::Array(a)),
        0 <= i < j < (published(params)->0).1.len(),
    ensures
        ({
            let ds = (published(params)->0).1;
            let (x, y) = (ds[i], ds[j]);
            &&& x.start_line < y.start_line || x.start_line == y.start_line && x.start_character
                <= y.start_character
            &&& ds.to_multiset() == diagnostics_in(a).to_multiset()
        }),
{
    crate::sort::ranked_is_a_ranked_permutation(diagnostics_in(a));
    let ds = (published(params)->0).1;
    assert(!ds[j].below(&ds[i]));
}

}
