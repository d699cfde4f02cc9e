//! Syntax highlighting: from what a grammar's query captures to a scope per
//! byte, and which grammar a file wants.
use vstd::prelude::*;
use vstd::utf8::{decode_utf8, encode_utf8, valid_utf8};
use tree_sitter::{Language, Query, Tree};
use crate::edit::copy_range;
use crate::sort::{ranked, sort_ranked, Rank, Ranked};
use crate::strings::{
    chars_of, first_solid, glue, is_white, is_whitespace, str_eq, string_of, text_from_utf8,
};
use crate::syntax::{
    accepted, accepts, capture_names, capture_names_of, captured, compile_query, compiled_query,
    parsable, run_query,
};
use crate::text::{line_end, line_end_of};
use crate::theme::{capture_scope, scope_for_capture, ScopeId};

verus! {

/// A stretch of text with a scope.
#[derive(Debug, Clone, Copy, PartialEq, Eq, Structural)]
pub struct HighlightSpan {
    pub start: usize,
    pub end: usize,
    pub scope: ScopeId,
}

/// A node that a query captured: the capture's index and the node's bytes.
#[derive(Debug, Clone, Copy, PartialEq, Eq, Structural)]
pub struct Capture {
    pub index: usize,
    pub start: usize,
    pub end: usize,
}

impl Rank for HighlightSpan {
    /// By start; of two that start together, the longer one first.
    open spec fn below(&self, other: &Self) -> bool {
        self.start < other.start || self.start == other.start && self.end > other.end
    }

    proof fn below_is_strict_weak(a: &Self, b: &Self, c: &Self) {
    }
}

impl Ranked for HighlightSpan {
    fn is_below(&self, other: &Self) -> (r: bool) {
        self.start < other.start || (self.start == other.start && self.end > other.end)
    }
}

/// The scope of byte `i`: that of the last span over it.
pub open spec fn scope_at(spans: Seq<HighlightSpan>, i: int) -> ScopeId
    decreases spans.len(),
{
    if spans.len() == 0 {
        ScopeId::Default
    } else if spans.last().start <= i < spans.last().end {
        spans.last().scope
    } else {
        scope_at(spans.drop_last(), i)
    }
}

/// A scope for each of `len` bytes. Of spans that overlap, the later one in
/// the list wins.
pub fn flatten_to_byte_scopes(spans: &[HighlightSpan], len: usize) -> (r: Vec<ScopeId>)
    ensures
        r@ == Seq::new(len as nat, |i: int| scope_at(spans@, i)),
{
    let mut out: Vec<ScopeId> = Vec::new();
    let mut n: usize = 0;
    while n < len
        invariant
            n <= len,
            out@ == Seq::new(n as nat, |i: int| ScopeId::Default),
        decreases len - n,
    {
        out.push(ScopeId::Default);
        assert(out@ =~= Seq::new((n + 1) as nat, |i: int| ScopeId::Default));
        n += 1;
    }
    let mut k: usize = 0;
    assert(spans@.take(0) =~= Seq::<HighlightSpan>::empty());
    while k < spans.len()
        invariant
            k <= spans@.len(),
            out@.len() == len,
            forall|i: int| 0 <= i < len ==> #[trigger] out@[i] == scope_at(spans@.take(k as int), i),
        decreases spans@.len() - k,
    {
        let span = spans[k];
        let end: usize = if span.end < len { span.end } else { len };
        let mut i: usize = span.start;
        let ghost before = out@;
        assert(spans@.take(k + 1).drop_last() =~= spans@.take(k as int));
        while i < end
            invariant
                span.start <= i,
                i <= end || i == span.start,
                end <= len == out@.len() == before.len(),
                forall|j: int|
                    0 <= j < len ==> #[trigger] out@[j] == (if span.start <= j < i {
                        span.scope
                    } else {
                        before[j]
                    }),
            decreases end - i,
        {
            out[i] = span.scope;
            i += 1;
        }
        assert forall|j: int| 0 <= j < len implies #[trigger] out@[j] == scope_at(
            spans@.take(k + 1),
            j,
        ) by {
            assert(before[j] == scope_at(spans@.take(k as int), j));
            assert(spans@.take(k + 1).last() == span);
        }
        k += 1;
    }
    assert(spans@.take(k as int) =~= spans@);
    assert(out@ =~= Seq::new(len as nat, |i: int| scope_at(spans@, i)));
    out
}

pub open spec fn capture_span(scopes: Seq<ScopeId>, c: Capture) -> HighlightSpan {
    HighlightSpan {
        start: c.start,
        end: c.end,
        scope: if c.index < scopes.len() { scopes[c.index as int] } else { ScopeId::Default },
    }
}

/// The spans of the captures that are not empty, in the order of capture.
pub open spec fn captured_spans(scopes: Seq<ScopeId>, cs: Seq<Capture>) -> Seq<HighlightSpan>
    decreases cs.len(),
{
    if cs.len() == 0 {
        Seq::empty()
    } else if cs.last().start < cs.last().end {
        captured_spans(scopes, cs.drop_last()).push(capture_span(scopes, cs.last()))
    } else {
        captured_spans(scopes, cs.drop_last())
    }
}

/// The spans of what a query captured, sorted so that an inner node comes
/// after the nodes around it. `capture_scopes` gives the scope of each
/// capture index.
pub fn sorted_spans(capture_scopes: &[ScopeId], captures: &[Capture]) -> (r: Vec<HighlightSpan>)
    ensures
        r@ == ranked(captured_spans(capture_scopes@, captures@)),
{
    let mut spans: Vec<HighlightSpan> = Vec::new();
    let mut k: usize = 0;
    assert(captures@.take(0) =~= Seq::<Capture>::empty());
    while k < captures.len()
        invariant
            k <= captures@.len(),
            spans@ == captured_spans(capture_scopes@, captures@.take(k as int)),
        decreases captures@.len() - k,
    {
        let c = captures[k];
        assert(captures@.take(k + 1).drop_last() =~= captures@.take(k as int));
        if c.start < c.end {
            let scope = if c.index < capture_scopes.len() {
                capture_scopes[c.index]
            } else {
                ScopeId::Default
            };
            spans.push(HighlightSpan { start: c.start, end: c.end, scope });
        }
        k += 1;
    }
    assert(captures@.take(k as int) =~= captures@);
    sort_ranked(spans)
}

/// A language: its grammar, its query and the scopes of the query's captures.
pub struct LangSupport {
    pub name: &'static str,
    pub language: Language,
    pub query: Query,
    pub capture_scopes: Vec<ScopeId>,
}

#[verifier::ext_equal]
pub struct LangView {
    pub name: Seq<char>,
    pub language: Language,
    pub query: Query,
    pub scopes: Seq<ScopeId>,
}

impl View for LangSupport {
    type V = LangView;

    open spec fn view(&self) -> LangView {
        LangView {
            name: self.name@,
            language: self.language,
            query: self.query,
            scopes: self.capture_scopes@,
        }
    }
}

/// The languages that can be highlighted, and what to say of those that could
/// not be registered.
pub struct Highlighter {
    pub langs: Vec<LangSupport>,
    pub problems: Vec<String>,
}

#[verifier::ext_equal]
pub struct HighlighterView {
    pub langs: Seq<LangView>,
    pub problems: Seq<Seq<char>>,
}

impl View for Highlighter {
    type V = HighlighterView;

    open spec fn view(&self) -> HighlighterView {
        HighlighterView {
            langs: self.langs@.map_values(|l: LangSupport| l@),
            problems: texts(self.problems@),
        }
    }
}

/// A language, as it was last registered.
pub open spec fn support_of(s: Seq<LangView>, lang: Seq<char>) -> Option<LangView>
    decreases s.len(),
{
    if s.len() == 0 {
        None
    } else if s.last().name == lang {
        Some(s.last())
    } else {
        support_of(s.drop_last(), lang)
    }
}

impl HighlighterView {
    /// With one more language, if its query compiles, and else with a problem.
    pub open spec fn registered(
        self,
        name: Seq<char>,
        language: Language,
        highlights: Seq<char>,
    ) -> HighlighterView {
        match compiled_query(language, highlights) {
            Ok(query) => HighlighterView {
                langs: self.langs.push(
                    LangView {
                        name,
                        language,
                        query,
                        scopes: capture_names_of(query).map_values(|n: Seq<char>| capture_scope(n)),
                    },
                ),
                ..self
            },
            Err(e) => HighlighterView {
                problems: self.problems.push(
                    "highlight: failed to compile "@ + name + " query: "@ + e,
                ),
                ..self
            },
        }
    }

    /// The grammar to parse a language with.
    pub open spec fn parser(self, lang: Seq<char>) -> Option<Language> {
        match support_of(self.langs, lang) {
            Some(l) => if accepted(l.language) {
                Some(l.language)
            } else {
                None
            },
            None => None,
        }
    }

    /// What a language's query captures in a tree of a text, as sorted spans.
    pub open spec fn spans(self, lang: Seq<char>, tree: Tree, text: Seq<u8>) -> Seq<HighlightSpan> {
        match support_of(self.langs, lang) {
            Some(l) => ranked(captured_spans(l.scopes, captured(l.query, tree, text))),
            None => Seq::empty(),
        }
    }
}

pub open spec fn opt_language(o: Option<&Language>) -> Option<Language> {
    match o {
        Some(l) => Some(*l),
        None => None,
    }
}

/// A program with its arguments.
pub struct ServerCommand {
    pub program: &'static str,
    pub args: Vec<&'static str>,
}

impl View for ServerCommand {
    type V = (Seq<char>, Seq<Seq<char>>);

    open spec fn view(&self) -> (Seq<char>, Seq<Seq<char>>) {
        (self.program@, self.args@.map_values(|a: &'static str| a@))
    }
}

/// The program that serves a language.
pub open spec fn server_command(lang: Seq<char>) -> Option<(Seq<char>, Seq<Seq<char>>)> {
    if lang == "go"@ {
        Some(("gopls"@, Seq::empty()))
    } else if lang == "python"@ {
        Some(("ty"@, seq!["server"@]))
    } else {
        None
    }
}

fn scopes_for(names: &[String]) -> (r: Vec<ScopeId>)
    ensures
        r@ == texts(names@).map_values(|n: Seq<char>| capture_scope(n)),
{
    let ghost want = texts(names@).map_values(|n: Seq<char>| capture_scope(n));
    let mut out: Vec<ScopeId> = Vec::new();
    let mut i: usize = 0;
    while i < names.len()
        invariant
            i <= names@.len(),
            want == texts(names@).map_values(|n: Seq<char>| capture_scope(n)),
            out@.len() == i,
            forall|k: int| 0 <= k < i ==> #[trigger] out@[k] == want[k],
        decreases names@.len() - i,
    {
        out.push(scope_for_capture(names[i].as_str()));
        i += 1;
    }
    assert(out@ =~= want);
    out
}

impl Highlighter {
    /// The languages that the editor knows, with the text of each one's query.
    pub fn new(
        go: Language,
        go_highlights: &str,
        mshell: Language,
        mshell_highlights: &str,
    ) -> (r: Highlighter)
        requires
            parsable(encode_utf8(go_highlights@).len() as int),
            parsable(encode_utf8(mshell_highlights@).len() as int),
        ensures
            r@ == (HighlighterView { langs: Seq::empty(), problems: Seq::empty() }).registered(
                "go"@,
                go,
                go_highlights@,
            ).registered("mshell"@, mshell, mshell_highlights@),
    {
        let mut r = Highlighter { langs: Vec::new(), problems: Vec::new() };
        assert(r@ =~= (HighlighterView { langs: Seq::empty(), problems: Seq::empty() }));
        r.register("go", go, go_highlights);
        r.register("mshell", mshell, mshell_highlights);
        r
    }

    /// Add a language. If its query does not compile it is left out, and that is
    /// a problem to tell of.
    pub fn register(&mut self, name: &'static str, language: Language, highlights: &str)
        requires
            parsable(encode_utf8(highlights@).len() as int),
        ensures
            final(self)@ == old(self)@.registered(name@, language, highlights@),
    {
        let ghost before = self@;
        match compile_query(&language, highlights) {
            Ok(query) => {
                let names = capture_names(&query);
                let capture_scopes = scopes_for(names.as_slice());
                let support = LangSupport { name, language, query, capture_scopes };
                let ghost v = support@;
                self.langs.push(support);
                assert(self@.langs =~= before.langs.push(v));
            },
            Err(e) => {
                let mut problem = glue("highlight: failed to compile ", name);
                problem.append(" query: ");
                problem.append(e.as_str());
                let ghost v = problem@;
                self.problems.push(problem);
                assert(self@.problems =~= before.problems.push(v));
            },
        }
        assert(self@ =~= before.registered(name@, language, highlights@));
    }

    /// A language that is registered.
    fn support(&self, lang_id: &str) -> (r: Option<&LangSupport>)
        ensures
            match r {
                Some(l) => support_of(self@.langs, lang_id@) == Some(l@),
                None => support_of(self@.langs, lang_id@) is None,
            },
    {
        let ghost all = self@.langs;
        let mut i: usize = self.langs.len();
        assert(all.take(i as int) =~= all);
        while i > 0
            invariant
                i <= self.langs@.len(),
                all == self@.langs,
                support_of(all.take(i as int), lang_id@) == support_of(all, lang_id@),
            decreases i,
        {
            assert(all.take(i as int).drop_last() =~= all.take(i - 1));
            assert(all.take(i as int).last() == self.langs@[i - 1]@);
            if str_eq(self.langs[i - 1].name, lang_id) {
                return Some(&self.langs[i - 1]);
            }
            i -= 1;
        }
        assert(all.take(0) =~= Seq::<LangView>::empty());
        None
    }

    /// The grammar to parse a language with; `None` if the language is not
    /// registered, or parsers do not accept its grammar.
    pub fn parser_for(&self, lang_id: &str) -> (r: Option<&Language>)
        ensures
            opt_language(r) == self@.parser(lang_id@),
    {
        match self.support(lang_id) {
            Some(l) => {
                if accepts(&l.language) {
                    Some(&l.language)
                } else {
                    None
                }
            },
            None => None,
        }
    }

    /// The spans of what a language's query captures in a tree of the text,
    /// sorted so that an inner node comes after the nodes around it; none for a
    /// language that is not registered.
    pub fn highlight(&self, lang_id: &str, tree: &Tree, bytes: &[u8]) -> (r: Vec<HighlightSpan>)
        requires
            parsable(bytes@.len() as int),
        ensures
            r@ == self@.spans(lang_id@, *tree, bytes@),
    {
        match self.support(lang_id) {
            Some(l) => {
                let captures = run_query(&l.query, tree, bytes);
                sorted_spans(l.capture_scopes.as_slice(), captures.as_slice())
            },
            None => Vec::new(),
        }
    }

    /// The program that serves a language, with its arguments; `None` for a
    /// language without one.
    pub fn lsp_command_for_lang(lang_id: &str) -> (r: Option<ServerCommand>)
        ensures
            match r {
                Some(c) => server_command(lang_id@) == Some(c@),
                None => server_command(lang_id@) is None,
            },
    {
        if str_eq(lang_id, "go") {
            let r = ServerCommand { program: "gopls", args: Vec::new() };
            assert(r@ =~= ("gopls"@, Seq::<Seq<char>>::empty()));
            Some(r)
        } else if str_eq(lang_id, "python") {
            let mut args: Vec<&'static str> = Vec::new();
            args.push("server");
            let r = ServerCommand { program: "ty", args };
            assert(r@.1 =~= seq!["server"@]);
            Some(r)
        } else {
            None
        }
    }

    /// The language of a file, by its extension.
    pub fn language_for_path(extension: &str) -> (r: Option<&'static str>)
        ensures
            opt_str(r) == extension_language(extension@),
    {
        path_language(extension)
    }

    /// The language of a file, by the interpreter that its first line names,
    /// directly or through `env`.
    pub fn language_for_shebang(content: &[u8]) -> (r: Option<&'static str>)
        ensures
            opt_str(r) == shebang_language(content@),
    {
        first_line_language(content)
    }
}

/// The language of a file extension.
pub open spec fn extension_language(ext: Seq<char>) -> Option<Seq<char>> {
    if ext == "go"@ {
        Some("go"@)
    } else if ext == "msh"@ || ext == "mshell"@ {
        Some("mshell"@)
    } else {
        None
    }
}

pub open spec fn opt_str(o: Option<&'static str>) -> Option<Seq<char>> {
    match o {
        Some(s) => Some(s@),
        None => None,
    }
}

fn path_language(extension: &str) -> (r: Option<&'static str>)
    ensures
        opt_str(r) == extension_language(extension@),
{
    if str_eq(extension, "go") {
        Some("go")
    } else if str_eq(extension, "msh") || str_eq(extension, "mshell") {
        Some("mshell")
    } else {
        None
    }
}

/// First index from `i` on that holds white space.
pub open spec fn first_blank(s: Seq<char>, i: int) -> int
    decreases s.len() - i,
{
    if i < s.len() && !is_white(s[i]) {
        first_blank(s, i + 1)
    } else {
        i
    }
}

pub proof fn lemma_word_bounds(s: Seq<char>, i: int)
    requires
        0 <= i <= s.len(),
    ensures
        i <= first_solid(s, i) <= s.len(),
        i <= first_blank(s, i) <= s.len(),
        first_solid(s, i) < s.len() ==> !is_white(s[first_solid(s, i)]),
        i < s.len() && !is_white(s[i]) ==> i < first_blank(s, i),
    decreases s.len() - i,
{
    if i < s.len() {
        lemma_word_bounds(s, i + 1);
    }
}

/// The words of `s` from `i` on: the runs of characters that are not white
/// space.
pub open spec fn words(s: Seq<char>, i: int) -> Seq<Seq<char>>
    decreases s.len() - i,
{
    let a = first_solid(s, i);
    if i < 0 || a >= s.len() {
        Seq::empty()
    } else {
        proof {
            lemma_word_bounds(s, i);
            lemma_word_bounds(s, a);
        }
        seq![s.subrange(a, first_blank(s, a))] + words(s, first_blank(s, a))
    }
}

pub open spec fn texts(v: Seq<String>) -> Seq<Seq<char>> {
    v.map_values(|s: String| s@)
}

/// The words of a text.
pub fn split_whitespace(s: &str) -> (r: Vec<String>)
    ensures
        texts(r@) == words(s@, 0),
{
    let chars = chars_of(s);
    let n: usize = chars.len();
    let mut r: Vec<String> = Vec::new();
    let mut i: usize = 0;
    let ghost all = words(s@, 0);
    assert(texts(r@) =~= Seq::<Seq<char>>::empty());
    assert(all =~= texts(r@) + words(s@, 0));
    loop
        invariant
            n == chars@.len(),
            i <= n,
            chars@ == s@,
            all == words(s@, 0),
            all == texts(r@) + words(s@, i as int),
        decreases n - i,
    {
        proof {
            lemma_word_bounds(s@, i as int);
        }
        let mut a: usize = i;
        while a < n && is_whitespace(chars[a])
            invariant
                i <= a <= n == chars@.len(),
                chars@ == s@,
                first_solid(s@, a as int) == first_solid(s@, i as int),
            decreases n - a,
        {
            a += 1;
        }
        if a >= n {
            assert(words(s@, i as int) =~= Seq::<Seq<char>>::empty());
            assert(all =~= texts(r@));
            return r;
        }
        let mut b: usize = a;
        while b < n && !is_whitespace(chars[b])
            invariant
                a <= b <= n == chars@.len(),
                chars@ == s@,
                first_blank(s@, b as int) == first_blank(s@, a as int),
            decreases n - b,
        {
            b += 1;
        }
        proof {
            lemma_word_bounds(s@, a as int);
        }
        let ghost before = texts(r@);
        let word = string_of(chars.as_slice(), a, b);
        r.push(word);
        proof {
            assert(texts(r@) =~= before.push(s@.subrange(a as int, b as int)));
            assert(all =~= texts(r@) + words(s@, b as int));
        }
        i = b;
    }
}

/// `s` behind its last slash.
pub open spec fn base_name(s: Seq<char>) -> Seq<char>
    decreases s.len(),
{
    if s.len() == 0 || s.last() == '/' {
        Seq::empty()
    } else {
        base_name(s.drop_last()).push(s.last())
    }
}

/// A word that `env` takes for itself: a flag or an assignment.
pub open spec fn env_argument(w: Seq<char>) -> bool {
    w.len() > 0 && w[0] == '-' || w.contains('=')
}

/// The first word from `i` on that is not for `env`.
pub open spec fn env_program(ws: Seq<Seq<char>>, i: int) -> Option<Seq<char>>
    decreases ws.len() - i,
{
    if i < 0 || i >= ws.len() {
        None
    } else if env_argument(ws[i]) {
        env_program(ws, i + 1)
    } else {
        Some(ws[i])
    }
}

/// The interpreter that the words of a shebang line name.
pub open spec fn interpreter(ws: Seq<Seq<char>>) -> Option<Seq<char>> {
    if ws.len() == 0 {
        None
    } else if base_name(ws[0]) == "env"@ {
        env_program(ws, 1)
    } else {
        Some(base_name(ws[0]))
    }
}

pub open spec fn interpreter_language(p: Option<Seq<char>>) -> Option<Seq<char>> {
    match p {
        None => None,
        Some(n) => if n == "msh"@ || n == "mshell"@ { Some("mshell"@) } else { None },
    }
}

/// The language that the first line of a file asks for.
pub open spec fn shebang_language(content: Seq<u8>) -> Option<Seq<char>> {
    let end = line_end_of(content, 0);
    if end < 2 || content[0] != 0x23 || content[1] != 0x21 {
        None
    } else {
        let rest = content.subrange(2, end);
        if valid_utf8(rest) {
            interpreter_language(interpreter(words(decode_utf8(rest), 0)))
        } else {
            None
        }
    }
}

fn name_behind_slash(s: &str) -> (r: String)
    ensures
        r@ == base_name(s@),
{
    let chars = chars_of(s);
    let n: usize = chars.len();
    let mut a: usize = n;
    assert(chars@.take(n as int) =~= chars@);
    assert(chars@.subrange(n as int, n as int) =~= Seq::<char>::empty());
    assert(base_name(chars@.take(n as int)) + chars@.subrange(n as int, n as int) =~= base_name(
        chars@,
    ));
    while a > 0 && chars[a - 1] != '/'
        invariant
            a <= n == chars@.len(),
            base_name(chars@.take(a as int)) + chars@.subrange(a as int, n as int) == base_name(
                chars@,
            ),
        decreases a,
    {
        proof {
            let t = chars@.take(a as int);
            assert(t.drop_last() =~= chars@.take(a - 1));
            assert(base_name(t.drop_last()).push(t.last()) + chars@.subrange(a as int, n as int)
                =~= base_name(t.drop_last()) + chars@.subrange(a - 1, n as int));
        }
        a -= 1;
    }
    let r = string_of(chars.as_slice(), a, n);
    assert(base_name(chars@.take(a as int)) =~= Seq::<char>::empty());
    assert(r@ =~= base_name(chars@));
    r
}

fn is_env_argument(w: &str) -> (r: bool)
    ensures
        r == env_argument(w@),
{
    let chars = chars_of(w);
    if chars.len() > 0 && chars[0] == '-' {
        return true;
    }
    let mut i: usize = 0;
    while i < chars.len()
        invariant
            i <= chars@.len(),
            chars@ == w@,
            forall|j: int| 0 <= j < i ==> chars@[j] != '=',
        decreases chars@.len() - i,
    {
        if chars[i] == '=' {
            return true;
        }
        i += 1;
    }
    false
}

fn first_line_language(content: &[u8]) -> (r: Option<&'static str>)
    ensures
        opt_str(r) == shebang_language(content@),
{
    let end: usize = line_end(content, 0);
    if end < 2 || content[0] != 0x23 || content[1] != 0x21 {
        return None;
    }
    let rest = copy_range(content, 2, end);
    let line = match text_from_utf8(rest.as_slice()) {
        None => {
            return None;
        },
        Some(t) => t,
    };
    let ws = split_whitespace(line.as_str());
    let ghost wsv = texts(ws@);
    if ws.len() == 0 {
        return None;
    }
    let base = name_behind_slash(ws[0].as_str());
    assert(wsv[0] == ws@[0]@);
    if str_eq(base.as_str(), "env") {
        let mut i: usize = 1;
        while i < ws.len()
            invariant
                1 <= i <= ws@.len(),
                wsv == texts(ws@),
                env_program(wsv, i as int) == env_program(wsv, 1),
                shebang_language(content@) == interpreter_language(env_program(wsv, 1)),
            decreases ws@.len() - i,
        {
            assert(wsv[i as int] == ws@[i as int]@);
            if !is_env_argument(ws[i].as_str()) {
                return language_of(ws[i].as_str());
            }
            i += 1;
        }
        return None;
    }
    language_of(base.as_str())
}

fn language_of(interp: &str) -> (r: Option<&'static str>)
    ensures
        opt_str(r) == interpreter_language(Some(interp@)),
{
    if str_eq(interp, "msh") || str_eq(interp, "mshell") {
        Some("mshell")
    } else {
        None
    }
}

/// Of two nodes, one inside the other, the inner one gives the scope.
pub proof fn inner_spans_win(outer: HighlightSpan, inner: HighlightSpan, i: int)
    requires
        outer.start <= inner.start <= i < inner.end <= outer.end,
        outer.start < inner.start || inner.end < outer.end,
    ensures
        scope_at(ranked(seq![outer, inner]), i) == inner.scope,
        scope_at(ranked(seq![inner, outer]), i) == inner.scope,
{
    reveal_with_fuel(ranked, 3);
    reveal_with_fuel(crate::sort::place_of, 3);
    assert(seq![outer, inner].drop_last() =~= seq![outer]);
    assert(seq![inner, outer].drop_last() =~= seq![inner]);
    assert(seq![outer].drop_last() =~= Seq::<HighlightSpan>::empty());
    assert(seq![inner].drop_last() =~= Seq::<HighlightSpan>::empty());
    assert(ranked(seq![outer]) =~= seq![outer]);
    assert(ranked(seq![inner]) =~= seq![inner]);
    assert(ranked(seq![outer, inner]) =~= seq![outer, inner]);
    assert(ranked(seq![inner, outer]) =~= seq![outer, inner]);
}

/// The last span that covers a byte gives it its scope; a byte that none covers
/// has none.
pub proof fn the_last_span_that_covers_counts(spans: Seq<HighlightSpan>, i: int, k: int)
    ensures
        0 <= k < spans.len() && spans[k].start <= i < spans[k].end && (forall|j: int|
            k < j < spans.len() ==> !((#[trigger] spans[j]).start <= i < spans[j].end)) ==> scope_at(
            spans,
            i,
        ) == spans[k].scope,
        (forall|j: int|
            0 <= j < spans.len() ==> !((#[trigger] spans[j]).start <= i < spans[j].end)) ==> scope_at(
            spans,
            i,
        ) == ScopeId::Default,
    decreases spans.len(),
{
    if spans.len() > 0 {
        let t = spans.drop_last();
        the_last_span_that_covers_counts(t, i, k);
        assert(spans.last() == spans[spans.len() - 1]);
        if (forall|j: int|
            0 <= j < spans.len() ==> !((#[trigger] spans[j]).start <= i < spans[j].end)) {
            assert forall|j: int| 0 <= j < t.len() implies !((#[trigger] t[j]).start <= i
                < t[j].end) by {
                assert(t[j] == spans[j]);
            }
        }
        if 0 <= k < spans.len() && spans[k].start <= i < spans[k].end && (forall|j: int|
            k < j < spans.len() ==> !((#[trigger] spans[j]).start <= i < spans[j].end)) {
            if k < t.len() {
                assert(t[k] == spans[k]);
                assert forall|j: int| k < j < t.len() implies !((#[trigger] t[j]).start <= i
                    < t[j].end) by {
                    assert(t[j] == spans[j]);
                }
            }
        }
    }
}

/// A capture that covers something becomes a span of its scope; one that covers
/// nothing becomes none.
pub proof fn captures_become_spans(scopes: Seq<ScopeId>, cs: Seq<Capture>, c: Capture)
    requires
        c.index < scopes.len(),
    ensures
        captured_spans(scopes, Seq::empty()).len() == 0,
        c.start < c.end ==> captured_spans(scopes, cs.push(c)) == captured_spans(scopes, cs).push(
            HighlightSpan { start: c.start, end: c.end, scope: scopes[c.index as int] },
        ),
        c.start >= c.end ==> captured_spans(scopes, cs.push(c)) == captured_spans(scopes, cs),
{
    assert(cs.push(c).drop_last() =~= cs);
}

/// The last part of a path is what stands behind its last slash.
pub proof fn the_last_part_stands_behind_the_last_slash(a: Seq<char>, b: Seq<char>)
    requires
        forall|i: int| 0 <= i < b.len() ==> #[trigger] b[i] != '/',
    ensures
        base_name(a + seq!['/'] + b) == b,
        base_name(b) == b,
    decreases b.len(),
{
    let s = a + seq!['/'] + b;
    if b.len() > 0 {
        let t = b.drop_last();
        assert forall|i: int| 0 <= i < t.len() implies #[trigger] t[i] != '/' by {
            assert(t[i] == b[i]);
        }
        the_last_part_stands_behind_the_last_slash(a, t);
        assert(s.drop_last() =~= a + seq!['/'] + t);
        assert(s.last() == b.last());
        assert(t.push(b.last()) =~= b);
    } else {
        assert(s.last() == '/');
        assert(base_name(s) =~= b);
    }
}

/// A script's interpreter is the last part of the program it names, or what the
/// `env` program is to run, behind its options and settings.
pub proof fn interpreters_are_named_directly_or_by_env(
    dir: Seq<char>,
    name: Seq<char>,
    option: Seq<char>,
    rest: Seq<Seq<char>>,
)
    requires
        forall|i: int| 0 <= i < name.len() ==> #[trigger] name[i] != '/',
        option.len() > 0,
        option[0] == '-',
    ensures
        ({
            let program = dir + seq!['/'] + name;
            let env = dir + seq!['/', 'e', 'n', 'v'];
            let asked = name.len() > 0 && name[0] != '-' && !name.contains('=');
            &&& name != seq!['e', 'n', 'v'] ==> interpreter(seq![program] + rest) == Some(name)
            &&& asked ==> interpreter(seq![env, name] + rest) == Some(name)
            &&& asked ==> interpreter(seq![env, option, name] + rest) == Some(name)
            &&& interpreter(Seq::empty()) is None
        }),
{
    reveal_strlit("env");
    assert("env"@ =~= seq!['e', 'n', 'v']);
    let program = dir + seq!['/'] + name;
    let env = dir + seq!['/', 'e', 'n', 'v'];
    the_last_part_stands_behind_the_last_slash(dir, name);
    let e = seq!['e', 'n', 'v'];
    assert forall|i: int| 0 <= i < e.len() implies #[trigger] e[i] != '/' by {}
    the_last_part_stands_behind_the_last_slash(dir, e);
    assert(env =~= dir + seq!['/'] + e);
    assert((seq![program] + rest)[0] == program);
    let (x, y) = (seq![env, name] + rest, seq![env, option, name] + rest);
    assert(x[0] == env && x[1] == name);
    assert(y[0] == env && y[1] == option && y[2] == name);
    reveal_with_fuel(env_program, 3);
}

proof fn lemma_first_blank_at(s: Seq<char>, i: int, e: int)
    requires
        0 <= i <= e <= s.len(),
        e < s.len() ==> is_white(s[e]),
        forall|j: int| i <= j < e ==> !is_white(#[trigger] s[j]),
    ensures
        first_blank(s, i) == e,
    decreases e - i,
{
    if i < e {
        lemma_first_blank_at(s, i + 1, e);
    }
}

proof fn lemma_runs_moved(s: Seq<char>, b: Seq<char>, d: int, i: int)
    requires
        0 <= d,
        0 <= i <= b.len(),
        s.len() == d + b.len(),
        forall|j: int| 0 <= j < b.len() ==> #[trigger] b[j] == s[d + j],
    ensures
        first_blank(s, d + i) == d + first_blank(b, i),
        first_solid(s, d + i) == d + first_solid(b, i),
    decreases b.len() - i,
{
    if i < b.len() {
        assert(b[i] == s[d + i]);
        lemma_runs_moved(s, b, d, i + 1);
    }
}

proof fn lemma_words_moved(s: Seq<char>, b: Seq<char>, d: int, i: int)
    requires
        0 <= d,
        0 <= i <= b.len(),
        s.len() == d + b.len(),
        forall|j: int| 0 <= j < b.len() ==> #[trigger] b[j] == s[d + j],
    ensures
        words(s, d + i) == words(b, i),
    decreases b.len() - i,
{
    lemma_runs_moved(s, b, d, i);
    let a = first_solid(b, i);
    if a < b.len() {
        lemma_word_bounds(b, i);
        lemma_word_bounds(b, a);
        let e = first_blank(b, a);
        lemma_runs_moved(s, b, d, a);
        assert(s.subrange(d + a, d + e) =~= b.subrange(a, e));
        lemma_words_moved(s, b, d, e);
    }
}

/// Words are told apart by white space, and only by that.
pub proof fn white_space_parts_words(w: Seq<char>, c: char, rest: Seq<char>)
    requires
        is_white(c),
        forall|i: int| 0 <= i < w.len() ==> !is_white(#[trigger] w[i]),
    ensures
        w.len() > 0 ==> words(w + seq![c] + rest, 0) == seq![w] + words(rest, 0),
        words(seq![c] + rest, 0) == words(rest, 0),
        w.len() > 0 ==> words(w, 0) == seq![w],
        words(Seq::empty(), 0).len() == 0,
{
    let n = w.len() as int;
    let s = w + seq![c] + rest;
    let t = seq![c] + rest;
    assert(t[0] == c);
    lemma_words_moved(t, rest, 1, 0);
    lemma_runs_moved(t, rest, 1, 0);
    assert(first_solid(t, 0) == first_solid(t, 1));
    lemma_white_skipped(t, 0);
    assert(words(t, 0) == words(t, 1));
    if n > 0 {
        assert(s[0] == w[0]);
        assert forall|j: int| 0 <= j < n implies !is_white(#[trigger] s[j]) by {
            assert(s[j] == w[j]);
        }
        assert(s[n] == c);
        lemma_first_blank_at(s, 0, n);
        assert(s.subrange(0, n) =~= w);
        lemma_words_moved(s, t, n, 0);
        lemma_first_blank_at(w, 0, n);
        assert(w.subrange(0, n) =~= w);
        assert(words(w, n) =~= Seq::<Seq<char>>::empty());
        assert(words(w, 0) =~= seq![w]);
    }
}

proof fn lemma_white_skipped(s: Seq<char>, i: int)
    requires
        0 <= i < s.len(),
        is_white(s[i]),
    ensures
        words(s, i) == words(s, i + 1),
{
    assert(first_solid(s, i) == first_solid(s, i + 1));
}

/// The language that was registered last under a name counts, and a name that
/// none was registered under is not known.
pub proof fn the_last_registered_language_counts(s: Seq<LangView>, lang: Seq<char>)
    ensures
        match support_of(s, lang) {
            Some(l) => l.name == lang && exists|k: int|
                0 <= k < s.len() && #[trigger] s[k] == l && forall|j: int|
                    k < j < s.len() ==> (#[trigger] s[j]).name != lang,
            None => forall|j: int| 0 <= j < s.len() ==> (#[trigger] s[j]).name != lang,
        },
    decreases s.len(),
{
    if s.len() > 0 {
        let t = s.drop_last();
        let n = s.len() - 1;
        if s.last().name == lang {
            assert(s[n] == s.last());
        } else {
            the_last_registered_language_counts(t, lang);
            if let Some(l) = support_of(t, lang) {
                let k = choose|k: int|
                    0 <= k < t.len() && #[trigger] t[k] == l && forall|j: int|
                        k < j < t.len() ==> (#[trigger] t[j]).name != lang;
                assert(s[k] == l);
                assert forall|j: int| k < j < s.len() implies (#[trigger] s[j]).name != lang by {
                    if j < n {
                        assert(t[j] == s[j]);
                    }
                }
            } else {
                assert forall|j: int| 0 <= j < s.len() implies (#[trigger] s[j]).name != lang by {
                    if j < n {
                        assert(t[j] == s[j]);
                    }
                }
            }
        }
    }
}

/// A script is known by the interpreter that its first line names behind `#!`;
/// nothing is read from any other first line.
pub proof fn scripts_are_known_by_their_interpreter(line: Seq<u8>, rest: Seq<u8>)
    requires
        valid_utf8(line),
        forall|i: int| 0 <= i < line.len() ==> #[trigger] line[i] != '\n' as u8,
    ensures
        ({
            let script = seq!['#' as u8, '!' as u8] + line + seq!['\n' as u8] + rest;
            let program = interpreter(words(decode_utf8(line), 0));
            let shell = program == Some(seq!['m', 's', 'h']) || program == Some(
                seq!['m', 's', 'h', 'e', 'l', 'l'],
            );
            &&& shell ==> shebang_language(script) == Some("mshell"@)
            &&& !shell ==> shebang_language(script) is None
        }),
        rest.len() > 0 && rest[0] != '#' as u8 ==> shebang_language(rest) is None,
        rest.len() > 1 && rest[1] != '!' as u8 ==> shebang_language(rest) is None,
{
    let script = seq!['#' as u8, '!' as u8] + line + seq!['\n' as u8] + rest;
    let e = 2 + line.len() as int;
    assert(script[0] == 0x23 && script[1] == 0x21 && script[e] == 0x0a);
    assert forall|i: int| 0 <= i < e implies #[trigger] script[i] != 0x0a by {
        if i >= 2 {
            assert(script[i] == line[i - 2]);
        }
    }
    lemma_line_ends_at(script, 0, e);
    assert(script.subrange(2, e) =~= line);
    reveal_strlit("msh");
    reveal_strlit("mshell");
    assert("msh"@ =~= seq!['m', 's', 'h']);
    assert("mshell"@ =~= seq!['m', 's', 'h', 'e', 'l', 'l']);
}

proof fn lemma_line_ends_at(s: Seq<u8>, i: int, e: int)
    requires
        0 <= i <= e < s.len(),
        s[e] == 0x0a,
        forall|j: int| i <= j < e ==> #[trigger] s[j] != 0x0a,
    ensures
        line_end_of(s, i) == e,
    decreases e - i,
{
    if i < e {
        lemma_line_ends_at(s, i + 1, e);
    }
}

}
