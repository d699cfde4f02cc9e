//! Syntax scopes and their colours.
use vstd::prelude::*;
use crate::strings::{chars_of, str_eq, string_of};

verus! {

#[derive(Debug, Clone, Copy, PartialEq, Eq, Structural)]
pub enum ScopeId {
    Default,
    Keyword,
    Function,
    Type,
    Constant,
    String,
    StringEscape,
    Number,
    Comment,
    Operator,
    Punctuation,
    Variable,
    VariableStore,
    VariableRetrieve,
    EnvVariable,
    Attribute,
    Tag,
}

/// The scope of a capture name that has one of its own.
pub open spec fn own_scope(n: Seq<char>) -> Option<ScopeId> {
    if n == "keyword"@ {
        Some(ScopeId::Keyword)
    } else if n == "function"@ || n == "method"@ {
        Some(ScopeId::Function)
    } else if n == "type"@ {
        Some(ScopeId::Type)
    } else if n == "constant"@ || n == "boolean"@ {
        Some(ScopeId::Constant)
    } else if n == "string"@ {
        Some(ScopeId::String)
    } else if n == "escape"@ {
        Some(ScopeId::StringEscape)
    } else if n == "number"@ {
        Some(ScopeId::Number)
    } else if n == "comment"@ {
        Some(ScopeId::Comment)
    } else if n == "operator"@ {
        Some(ScopeId::Operator)
    } else if n == "punctuation"@ {
        Some(ScopeId::Punctuation)
    } else if n == "variable.store"@ {
        Some(ScopeId::VariableStore)
    } else if n == "variable.retrieve"@ {
        Some(ScopeId::VariableRetrieve)
    } else if n == "variable.builtin"@ {
        Some(ScopeId::EnvVariable)
    } else if n == "variable"@ || n == "parameter"@ {
        Some(ScopeId::Variable)
    } else if n == "attribute"@ || n == "label"@ {
        Some(ScopeId::Attribute)
    } else if n == "tag"@ {
        Some(ScopeId::Tag)
    } else if n == "markup.heading"@ {
        Some(ScopeId::Keyword)
    } else if n == "markup.link.url"@ {
        Some(ScopeId::Type)
    } else if n == "markup.link.label"@ || n == "markup.link"@ {
        Some(ScopeId::Function)
    } else if n == "markup.raw"@ || n == "markup.raw.block"@ || n == "markup.math"@ {
        Some(ScopeId::String)
    } else if n == "markup.quote"@ {
        Some(ScopeId::Comment)
    } else if n == "markup.list"@ {
        Some(ScopeId::Punctuation)
    } else if n == "markup.strong"@ {
        Some(ScopeId::Constant)
    } else if n == "property"@ {
        Some(ScopeId::Attribute)
    } else {
        None
    }
}

/// Index of the last dot before `i`, or -1.
pub open spec fn last_dot(n: Seq<char>, i: int) -> int
    decreases i,
{
    if i <= 0 {
        -1
    } else if n[i - 1] == '.' {
        i - 1
    } else {
        last_dot(n, i - 1)
    }
}

/// The scope of a capture name: its own, or that of the longest of its dotted
/// prefixes that has one.
pub open spec fn capture_scope(n: Seq<char>) -> ScopeId
    decreases n.len(),
{
    match own_scope(n) {
        Some(s) => s,
        None => {
            let d = last_dot(n, n.len() as int);
            if d < 0 || d >= n.len() { ScopeId::Default } else { capture_scope(n.take(d)) }
        },
    }
}

fn exact_scope(n: &str) -> (r: Option<ScopeId>)
    ensures
        r == own_scope(n@),
{
    if str_eq(n, "keyword") {
        Some(ScopeId::Keyword)
    } else if str_eq(n, "function") || str_eq(n, "method") {
        Some(ScopeId::Function)
    } else if str_eq(n, "type") {
        Some(ScopeId::Type)
    } else if str_eq(n, "constant") || str_eq(n, "boolean") {
        Some(ScopeId::Constant)
    } else if str_eq(n, "string") {
        Some(ScopeId::String)
    } else if str_eq(n, "escape") {
        Some(ScopeId::StringEscape)
    } else if str_eq(n, "number") {
        Some(ScopeId::Number)
    } else if str_eq(n, "comment") {
        Some(ScopeId::Comment)
    } else if str_eq(n, "operator") {
        Some(ScopeId::Operator)
    } else if str_eq(n, "punctuation") {
        Some(ScopeId::Punctuation)
    } else if str_eq(n, "variable.store") {
        Some(ScopeId::VariableStore)
    } else if str_eq(n, "variable.retrieve") {
        Some(ScopeId::VariableRetrieve)
    } else if str_eq(n, "variable.builtin") {
        Some(ScopeId::EnvVariable)
    } else if str_eq(n, "variable") || str_eq(n, "parameter") {
        Some(ScopeId::Variable)
    } else if str_eq(n, "attribute") || str_eq(n, "label") {
        Some(ScopeId::Attribute)
    } else if str_eq(n, "tag") {
        Some(ScopeId::Tag)
    } else if str_eq(n, "markup.heading") {
        Some(ScopeId::Keyword)
    } else if str_eq(n, "markup.link.url") {
        Some(ScopeId::Type)
    } else if str_eq(n, "markup.link.label") || str_eq(n, "markup.link") {
        Some(ScopeId::Function)
    } else if str_eq(n, "markup.raw") || str_eq(n, "markup.raw.block") || str_eq(n, "markup.math") {
        Some(ScopeId::String)
    } else if str_eq(n, "markup.quote") {
        Some(ScopeId::Comment)
    } else if str_eq(n, "markup.list") {
        Some(ScopeId::Punctuation)
    } else if str_eq(n, "markup.strong") {
        Some(ScopeId::Constant)
    } else if str_eq(n, "property") {
        Some(ScopeId::Attribute)
    } else {
        None
    }
}

/// The scope of a dotted capture name.
pub fn scope_for_capture(name: &str) -> (r: ScopeId)
    ensures
        r == capture_scope(name@),
{
    let chars = chars_of(name);
    let mut n: usize = chars.len();
    assert(chars@.take(n as int) =~= chars@);
    loop
        invariant
            n <= chars@.len(),
            chars@ == name@,
            capture_scope(chars@.take(n as int)) == capture_scope(name@),
        decreases n,
    {
        let part = string_of(chars.as_slice(), 0, n);
        assert(part@ =~= chars@.take(n as int));
        match exact_scope(part.as_str()) {
            Some(s) => {
                return s;
            },
            None => {},
        }
        let mut d: usize = n;
        let ghost cur = chars@.take(n as int);
        while d > 0 && chars[d - 1] != '.'
            invariant
                d <= n <= chars@.len(),
                cur == chars@.take(n as int),
                last_dot(cur, d as int) == last_dot(cur, n as int),
            decreases d,
        {
            d -= 1;
        }
        if d == 0 {
            return ScopeId::Default;
        }
        assert(cur[d - 1] == chars@[d - 1]);
        assert(cur.take(d - 1) =~= chars@.take(d - 1));
        n = d - 1;
    }
}

pub open spec fn scope_fg(scope: ScopeId) -> Seq<char> {
    match scope {
        ScopeId::Default => "\x1b[39m"@,
        ScopeId::Keyword => "\x1b[38;5;141m"@,
        ScopeId::Function => "\x1b[38;5;221m"@,
        ScopeId::Type => "\x1b[38;5;110m"@,
        ScopeId::Constant => "\x1b[38;5;209m"@,
        ScopeId::String => "\x1b[38;5;108m"@,
        ScopeId::StringEscape => "\x1b[38;5;180m"@,
        ScopeId::Number => "\x1b[38;5;173m"@,
        ScopeId::Comment => "\x1b[38;5;243m"@,
        ScopeId::Operator => "\x1b[38;5;188m"@,
        ScopeId::Punctuation => "\x1b[38;5;188m"@,
        ScopeId::Variable => "\x1b[39m"@,
        ScopeId::VariableStore => "\x1b[38;5;174m"@,
        ScopeId::VariableRetrieve => "\x1b[38;5;152m"@,
        ScopeId::EnvVariable => "\x1b[38;5;144m"@,
        ScopeId::Attribute => "\x1b[38;5;179m"@,
        ScopeId::Tag => "\x1b[38;5;75m"@,
    }
}

/// The escape sequence for a scope's foreground colour.
pub fn fg_for_scope(scope: ScopeId) -> (r: &'static str)
    ensures
        r@ == scope_fg(scope),
{
    match scope {
        ScopeId::Default => "\x1b[39m",
        ScopeId::Keyword => "\x1b[38;5;141m",
        ScopeId::Function => "\x1b[38;5;221m",
        ScopeId::Type => "\x1b[38;5;110m",
        ScopeId::Constant => "\x1b[38;5;209m",
        ScopeId::String => "\x1b[38;5;108m",
        ScopeId::StringEscape => "\x1b[38;5;180m",
        ScopeId::Number => "\x1b[38;5;173m",
        ScopeId::Comment => "\x1b[38;5;243m",
        ScopeId::Operator => "\x1b[38;5;188m",
        ScopeId::Punctuation => "\x1b[38;5;188m",
        ScopeId::Variable => "\x1b[39m",
        ScopeId::VariableStore => "\x1b[38;5;174m",
        ScopeId::VariableRetrieve => "\x1b[38;5;152m",
        ScopeId::EnvVariable => "\x1b[38;5;144m",
        ScopeId::Attribute => "\x1b[38;5;179m",
        ScopeId::Tag => "\x1b[38;5;75m",
    }
}

/// A name that has no scope of its own has that of its parent.
pub proof fn unknown_names_take_their_parents_scope(n: Seq<char>, suffix: Seq<char>)
    requires
        own_scope(n + "."@ + suffix) is None,
        !suffix.contains('.'),
    ensures
        capture_scope(n + "."@ + suffix) == capture_scope(n),
{
    reveal_strlit(".");
    let whole = n + "."@ + suffix;
    lemma_last_dot(whole, whole.len() as int, n.len() as int);
    assert(whole.take(n.len() as int) =~= n);
}

proof fn lemma_last_dot(s: Seq<char>, i: int, d: int)
    requires
        0 <= d < i <= s.len(),
        s[d] == '.',
        forall|j: int| d < j < i ==> s[j] != '.',
    ensures
        last_dot(s, i) == d,
    decreases i,
{
    if i - 1 > d {
        lemma_last_dot(s, i - 1, d);
    }
}

/// The name that captures of a scope have.
pub open spec fn name_of(scope: ScopeId) -> Seq<char> {
    match scope {
        ScopeId::Default => Seq::empty(),
        ScopeId::Keyword => "keyword"@,
        ScopeId::Function => "function"@,
        ScopeId::Type => "type"@,
        ScopeId::Constant => "constant"@,
        ScopeId::String => "string"@,
        ScopeId::StringEscape => "escape"@,
        ScopeId::Number => "number"@,
        ScopeId::Comment => "comment"@,
        ScopeId::Operator => "operator"@,
        ScopeId::Punctuation => "punctuation"@,
        ScopeId::Variable => "variable"@,
        ScopeId::VariableStore => "variable.store"@,
        ScopeId::VariableRetrieve => "variable.retrieve"@,
        ScopeId::EnvVariable => "variable.builtin"@,
        ScopeId::Attribute => "attribute"@,
        ScopeId::Tag => "tag"@,
    }
}

/// Each scope has a name, and captures of that name have that scope.
pub proof fn scopes_are_found_by_name(scope: ScopeId)
    requires
        scope != ScopeId::Default,
    ensures
        capture_scope(name_of(scope)) == scope,
{
    reveal_strlit("keyword");
    reveal_strlit("function");
    reveal_strlit("method");
    reveal_strlit("type");
    reveal_strlit("constant");
    reveal_strlit("boolean");
    reveal_strlit("string");
    reveal_strlit("escape");
    reveal_strlit("number");
    reveal_strlit("comment");
    reveal_strlit("operator");
    reveal_strlit("punctuation");
    reveal_strlit("variable.store");
    reveal_strlit("variable.retrieve");
    reveal_strlit("variable.builtin");
    reveal_strlit("variable");
    reveal_strlit("parameter");
    reveal_strlit("attribute");
    reveal_strlit("label");
    reveal_strlit("tag");
    reveal_strlit("markup.heading");
    reveal_strlit("markup.link.url");
    reveal_strlit("markup.link.label");
    reveal_strlit("markup.link");
    reveal_strlit("markup.raw");
    reveal_strlit("markup.raw.block");
    reveal_strlit("markup.math");
    reveal_strlit("markup.quote");
    reveal_strlit("markup.list");
    reveal_strlit("markup.strong");
    reveal_strlit("property");
    assert("keyword"@.len() == 7 && "keyword"@[0] == 'k' && "keyword"@[2] == 'y');
    assert("function"@.len() == 8 && "function"@[0] == 'f' && "function"@[2] == 'n');
    assert("method"@.len() == 6 && "method"@[0] == 'm' && "method"@[2] == 't');
    assert("type"@.len() == 4 && "type"@[0] == 't' && "type"@[2] == 'p');
    assert("constant"@.len() == 8 && "constant"@[0] == 'c' && "constant"@[2] == 'n');
    assert("boolean"@.len() == 7 && "boolean"@[0] == 'b' && "boolean"@[2] == 'o');
    assert("string"@.len() == 6 && "string"@[0] == 's' && "string"@[2] == 'r');
    assert("escape"@.len() == 6 && "escape"@[0] == 'e' && "escape"@[2] == 'c');
    assert("number"@.len() == 6 && "number"@[0] == 'n' && "number"@[2] == 'm');
    assert("comment"@.len() == 7 && "comment"@[0] == 'c' && "comment"@[2] == 'm');
    assert("operator"@.len() == 8 && "operator"@[0] == 'o' && "operator"@[2] == 'e');
    assert("punctuation"@.len() == 11 && "punctuation"@[0] == 'p' && "punctuation"@[2] == 'n');
    assert("variable.store"@.len() == 14 && "variable.store"@[0] == 'v' && "variable.store"@[2] == 'r');
    assert("variable.retrieve"@.len() == 17 && "variable.retrieve"@[0] == 'v' && "variable.retrieve"@[2] == 'r');
    assert("variable.builtin"@.len() == 16 && "variable.builtin"@[0] == 'v' && "variable.builtin"@[2] == 'r');
    assert("variable"@.len() == 8 && "variable"@[0] == 'v' && "variable"@[2] == 'r');
    assert("parameter"@.len() == 9 && "parameter"@[0] == 'p' && "parameter"@[2] == 'r');
    assert("attribute"@.len() == 9 && "attribute"@[0] == 'a' && "attribute"@[2] == 't');
    assert("label"@.len() == 5 && "label"@[0] == 'l' && "label"@[2] == 'b');
    assert("tag"@.len() == 3 && "tag"@[0] == 't' && "tag"@[2] == 'g');
    assert("markup.heading"@.len() == 14 && "markup.heading"@[0] == 'm' && "markup.heading"@[2] == 'r');
    assert("markup.link.url"@.len() == 15 && "markup.link.url"@[0] == 'm' && "markup.link.url"@[2] == 'r');
    assert("markup.link.label"@.len() == 17 && "markup.link.label"@[0] == 'm' && "markup.link.label"@[2] == 'r');
    assert("markup.link"@.len() == 11 && "markup.link"@[0] == 'm' && "markup.link"@[2] == 'r');
    assert("markup.raw"@.len() == 10 && "markup.raw"@[0] == 'm' && "markup.raw"@[2] == 'r');
    assert("markup.raw.block"@.len() == 16 && "markup.raw.block"@[0] == 'm' && "markup.raw.block"@[2] == 'r');
    assert("markup.math"@.len() == 11 && "markup.math"@[0] == 'm' && "markup.math"@[2] == 'r');
    assert("markup.quote"@.len() == 12 && "markup.quote"@[0] == 'm' && "markup.quote"@[2] == 'r');
    assert("markup.list"@.len() == 11 && "markup.list"@[0] == 'm' && "markup.list"@[2] == 'r');
    assert("markup.strong"@.len() == 13 && "markup.strong"@[0] == 'm' && "markup.strong"@[2] == 'r');
    assert("property"@.len() == 8 && "property"@[0] == 'p' && "property"@[2] == 'o');
    assert("markup.link"@[7] == 'l' && "markup.math"@[7] == 'm');
    assert("markup.link"@[9] == 'n' && "markup.list"@[9] == 's');
    assert("markup.math"@[7] == 'm' && "markup.list"@[7] == 'l');
    assert(own_scope(name_of(scope)) == Some(scope));
}

/// Scopes have colours of their own, but for operators and punctuation, which
/// share one, and for variables, which have none.
pub proof fn scopes_look_different(a: ScopeId, b: ScopeId)
    requires
        scope_fg(a) == scope_fg(b),
    ensures
        a == b || (a is Operator || a is Punctuation) && (b is Operator || b is Punctuation) || (a
            is Default || a is Variable) && (b is Default || b is Variable),
{
    reveal_strlit("\x1b[39m");
    assert("\x1b[39m"@.len() == 5);
    reveal_strlit("\x1b[38;5;141m");
    reveal_strlit("\x1b[38;5;221m");
    reveal_strlit("\x1b[38;5;110m");
    reveal_strlit("\x1b[38;5;209m");
    reveal_strlit("\x1b[38;5;108m");
    reveal_strlit("\x1b[38;5;180m");
    reveal_strlit("\x1b[38;5;173m");
    reveal_strlit("\x1b[38;5;243m");
    reveal_strlit("\x1b[38;5;188m");
    reveal_strlit("\x1b[38;5;174m");
    reveal_strlit("\x1b[38;5;152m");
    reveal_strlit("\x1b[38;5;144m");
    reveal_strlit("\x1b[38;5;179m");
    reveal_strlit("\x1b[38;5;75m");
    assert("\x1b[38;5;141m"@.len() == 11 && "\x1b[38;5;141m"@[7] == '1' && "\x1b[38;5;141m"@[8] == '4' && "\x1b[38;5;141m"@[9] == '1');
    assert("\x1b[38;5;221m"@.len() == 11 && "\x1b[38;5;221m"@[7] == '2' && "\x1b[38;5;221m"@[8] == '2' && "\x1b[38;5;221m"@[9] == '1');
    assert("\x1b[38;5;110m"@.len() == 11 && "\x1b[38;5;110m"@[7] == '1' && "\x1b[38;5;110m"@[8] == '1' && "\x1b[38;5;110m"@[9] == '0');
    assert("\x1b[38;5;209m"@.len() == 11 && "\x1b[38;5;209m"@[7] == '2' && "\x1b[38;5;209m"@[8] == '0' && "\x1b[38;5;209m"@[9] == '9');
    assert("\x1b[38;5;108m"@.len() == 11 && "\x1b[38;5;108m"@[7] == '1' && "\x1b[38;5;108m"@[8] == '0' && "\x1b[38;5;108m"@[9] == '8');
    assert("\x1b[38;5;180m"@.len() == 11 && "\x1b[38;5;180m"@[7] == '1' && "\x1b[38;5;180m"@[8] == '8' && "\x1b[38;5;180m"@[9] == '0');
    assert("\x1b[38;5;173m"@.len() == 11 && "\x1b[38;5;173m"@[7] == '1' && "\x1b[38;5;173m"@[8] == '7' && "\x1b[38;5;173m"@[9] == '3');
    assert("\x1b[38;5;243m"@.len() == 11 && "\x1b[38;5;243m"@[7] == '2' && "\x1b[38;5;243m"@[8] == '4' && "\x1b[38;5;243m"@[9] == '3');
    assert("\x1b[38;5;188m"@.len() == 11 && "\x1b[38;5;188m"@[7] == '1' && "\x1b[38;5;188m"@[8] == '8' && "\x1b[38;5;188m"@[9] == '8');
    assert("\x1b[38;5;174m"@.len() == 11 && "\x1b[38;5;174m"@[7] == '1' && "\x1b[38;5;174m"@[8] == '7' && "\x1b[38;5;174m"@[9] == '4');
    assert("\x1b[38;5;152m"@.len() == 11 && "\x1b[38;5;152m"@[7] == '1' && "\x1b[38;5;152m"@[8] == '5' && "\x1b[38;5;152m"@[9] == '2');
    assert("\x1b[38;5;144m"@.len() == 11 && "\x1b[38;5;144m"@[7] == '1' && "\x1b[38;5;144m"@[8] == '4' && "\x1b[38;5;144m"@[9] == '4');
    assert("\x1b[38;5;179m"@.len() == 11 && "\x1b[38;5;179m"@[7] == '1' && "\x1b[38;5;179m"@[8] == '7' && "\x1b[38;5;179m"@[9] == '9');
    assert("\x1b[38;5;75m"@.len() == 10 && "\x1b[38;5;75m"@[7] == '7' && "\x1b[38;5;75m"@[8] == '5' && "\x1b[38;5;75m"@[9] == 'm');
    let (x, y) = (scope_fg(a), scope_fg(b));
    assert(x.len() == y.len());
    if x.len() > 5 {
        assert(x[7] == y[7] && x[8] == y[8] && x[9] == y[9]);
    }
}

}
