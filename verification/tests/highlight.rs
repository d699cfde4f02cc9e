use medit::buffer::Buffer;
use medit::editor::{reload_from_disk, EditorBuffer};
use medit::highlight::{HighlightSpan, Highlighter};
use medit::present::{needs_highlight, reparse_and_highlight};
use medit::syntax::{piece, tree_to_reuse};
use medit::theme::ScopeId;
use tree_sitter::{Language, Parser, Tree};

fn go() -> Language {
    Language::from(tree_sitter_go::LANGUAGE)
}

fn highlighter(go_query: &str, mshell_query: &str) -> Highlighter {
    Highlighter::new(go(), go_query, go(), mshell_query)
}

fn parse(h: &Highlighter, lang: &str, src: &[u8]) -> Tree {
    let mut parser = Parser::new();
    parser.set_language(h.parser_for(lang).expect("grammar")).expect("language");
    parser.parse(src, None).expect("parse")
}

fn opened(name: &str, text: &str) -> EditorBuffer {
    EditorBuffer::new(
        Buffer::from_bytes(text.as_bytes().to_vec()),
        Some("/x.go".to_string()),
        Some("x.go".to_string()),
        Some(name),
        None,
    )
}

const KEYWORDS: &str = "[\"func\" \"package\" \"return\"] @keyword (int_literal) @number";

#[test]
fn go_parses_and_highlights_a_keyword() {
    let h = highlighter(tree_sitter_go::HIGHLIGHTS_QUERY, "");
    let src = b"package main\n\nfunc add(a int, b int) int { return a + b }\n";
    let tree = parse(&h, "go", src);
    let spans = h.highlight("go", &tree, src);
    assert!(!spans.is_empty(), "expected at least one highlight span");
    let func_pos = src.windows(4).position(|w| w == b"func").unwrap();
    let span = spans
        .iter()
        .find(|s| s.start == func_pos && s.end == func_pos + 4)
        .expect("highlight span for `func` not found");
    assert_eq!(span.scope, ScopeId::Keyword);
}

#[test]
fn the_known_languages_are_registered() {
    let h = highlighter(KEYWORDS, "(package_identifier) @type");
    assert!(h.problems.is_empty());
    assert_eq!(h.langs.len(), 2);
    assert_eq!((h.langs[0].name, h.langs[1].name), ("go", "mshell"));
    assert_eq!(h.langs[0].capture_scopes, vec![ScopeId::Keyword, ScopeId::Number]);
    let src = b"package main\n";
    let tree = parse(&h, "mshell", src);
    assert_eq!(
        h.highlight("go", &tree, src),
        vec![HighlightSpan { start: 0, end: 7, scope: ScopeId::Keyword }]
    );
    assert_eq!(
        h.highlight("mshell", &tree, src),
        vec![HighlightSpan { start: 8, end: 12, scope: ScopeId::Type }]
    );
    assert!(h.parser_for("rust").is_none());
    assert!(h.highlight("rust", &tree, src).is_empty());
}

#[test]
fn the_last_registration_counts() {
    let mut h = highlighter(KEYWORDS, "");
    h.register("go", go(), "(package_identifier) @string");
    let src = b"package main\n";
    let spans = h.highlight("go", &parse(&h, "go", src), src);
    assert_eq!(spans, vec![HighlightSpan { start: 8, end: 12, scope: ScopeId::String }]);
}

#[test]
fn a_query_that_does_not_compile_is_a_problem() {
    let h = highlighter("(no_such_node) @keyword", KEYWORDS);
    assert_eq!(h.langs.len(), 1);
    assert!(h.parser_for("go").is_none());
    assert!(h.parser_for("mshell").is_some());
    assert_eq!(
        h.problems,
        vec![
            "highlight: failed to compile go query: \
             Query error at 1:2. Invalid node type no_such_node"
                .to_string()
        ]
    );
}

#[test]
fn conditions_look_at_the_text() {
    let h = highlighter("((identifier) @function (#eq? @function \"bb\"))", "");
    let src = b"package p\nvar aa, bb, cc int\n";
    let spans = h.highlight("go", &parse(&h, "go", src), src);
    assert_eq!(spans, vec![HighlightSpan { start: 18, end: 20, scope: ScopeId::Function }]);
    // A tree of a longer text asks for bytes that are not there.
    let cut = &src[..12];
    assert!(h.highlight("go", &parse(&h, "go", src), cut).is_empty());
    assert_eq!(piece(b"abc", 1, 3), b"bc");
    assert_eq!(piece(b"abc", 2, 4), b"");
    assert_eq!(piece(b"abc", 2, 1), b"");
}

#[test]
fn edits_are_parsed_again() {
    let h = highlighter(KEYWORDS, "");
    let mut b = opened("go", "package p\n");
    assert!(needs_highlight(&b));
    reparse_and_highlight(&mut b, &h);
    assert!(!needs_highlight(&b));
    assert_eq!(b.highlight_version, Some(0));
    assert_eq!(b.flat_scopes.len(), 10);
    assert_eq!(b.flat_scopes[6], ScopeId::Keyword);
    assert_eq!(b.flat_scopes[8], ScopeId::Default);

    b.buffer.insert(10, b"const x = 12\n");
    assert!(needs_highlight(&b));
    reparse_and_highlight(&mut b, &h);
    assert_eq!(b.highlight_version, Some(1));
    assert_eq!(b.flat_scopes.len(), 23);
    assert_eq!(b.flat_scopes[20], ScopeId::Number);
    assert_eq!(b.flat_scopes[21], ScopeId::Number);
    assert_eq!(b.flat_scopes[22], ScopeId::Default);
    assert!(b.buffer.drain_pending_edits().is_empty());
    assert_eq!(b.tree.as_ref().unwrap().root_node().end_byte(), 23);

    b.buffer.delete(0, 8);
    b.buffer.insert(0, b"package ");
    reparse_and_highlight(&mut b, &h);
    assert_eq!(b.flat_scopes[0], ScopeId::Keyword);
    assert_eq!(b.flat_scopes[20], ScopeId::Number);
}

#[test]
fn edits_stay_logged_while_there_is_no_parser() {
    let h = highlighter("(no_such_node) @keyword", KEYWORDS);
    let mut b = opened("go", "package p\n");
    b.buffer.insert(0, b"\n");
    reparse_and_highlight(&mut b, &h);
    assert!(b.tree.is_none());
    assert!(b.flat_scopes.is_empty());
    assert_eq!(b.buffer.drain_pending_edits().len(), 1);

    let mut plain = opened("txt", "package p\n");
    plain.buffer.insert(0, b"\n");
    reparse_and_highlight(&mut plain, &highlighter(KEYWORDS, ""));
    assert_eq!(plain.buffer.drain_pending_edits().len(), 1);
    assert!(plain.highlight_version.is_none());
}

#[test]
fn a_colored_version_only_drops_the_log() {
    let h = highlighter(KEYWORDS, "");
    let mut b = opened("go", "package p\n");
    reparse_and_highlight(&mut b, &h);
    b.buffer.insert(0, b"\n");
    b.highlight_version = Some(1);
    reparse_and_highlight(&mut b, &h);
    assert_eq!(b.flat_scopes.len(), 10);
    assert!(b.buffer.drain_pending_edits().is_empty());
    assert_eq!(b.tree.as_ref().unwrap().root_node().end_byte(), 10);
}

#[test]
fn reloading_forgets_the_tree() {
    let h = highlighter(KEYWORDS, "");
    let mut b = opened("go", "package p\n");
    reparse_and_highlight(&mut b, &h);
    assert!(b.tree.is_some());
    let mut message = String::new();
    assert!(reload_from_disk(&mut b, Ok(b"func f()\n".to_vec()), None, &mut message));
    assert!(b.tree.is_none());
    assert!(needs_highlight(&b));
    reparse_and_highlight(&mut b, &h);
    assert_eq!(b.flat_scopes[0], ScopeId::Keyword);
}

#[test]
fn shebang_detection_handles_direct_and_env() {
    assert_eq!(Highlighter::language_for_shebang(b"#!/usr/bin/msh\n"), Some("mshell"));
    assert_eq!(Highlighter::language_for_shebang(b"#!/usr/local/bin/mshell\n"), Some("mshell"));
    assert_eq!(Highlighter::language_for_shebang(b"#!/usr/bin/env msh\n"), Some("mshell"));
    assert_eq!(Highlighter::language_for_shebang(b"#!/usr/bin/env mshell\n"), Some("mshell"));
    assert_eq!(Highlighter::language_for_shebang(b"#!/usr/bin/env -S msh\n"), Some("mshell"));
    assert_eq!(Highlighter::language_for_shebang(b"#!/usr/bin/env FOO=bar msh\n"), Some("mshell"));
    assert_eq!(Highlighter::language_for_shebang(b"#!/bin/bash\n"), None);
    assert_eq!(Highlighter::language_for_shebang(b"hello world\n"), None);
    assert_eq!(Highlighter::language_for_shebang(b""), None);
}

#[test]
fn a_tree_of_another_grammar_is_not_reused() {
    let json = || Language::from(tree_sitter_json::LANGUAGE);
    let numbers = "(number) @number";
    let first = highlighter(KEYWORDS, "");
    let second = Highlighter::new(json(), numbers, json(), numbers);
    assert!(second.problems.is_empty());
    let mut b = opened("go", "// a comment\npackage p\n");
    reparse_and_highlight(&mut b, &first);
    assert_eq!(b.flat_scopes[13], ScopeId::Keyword);

    // The text is now read by another grammar, from the start.
    b.buffer.insert(20, b" 1");
    reparse_and_highlight(&mut b, &second);
    assert_eq!(b.highlight_version, Some(1));
    assert_eq!(*b.tree.as_ref().unwrap().language(), json());
    assert_eq!(b.flat_scopes.len(), b.buffer.len());

    b.buffer.delete(0, b.buffer.len());
    b.buffer.insert(0, b"[12]");
    reparse_and_highlight(&mut b, &second);
    assert_eq!(
        b.flat_scopes,
        vec![ScopeId::Default, ScopeId::Number, ScopeId::Number, ScopeId::Default]
    );

    // And back.
    b.buffer.delete(0, 4);
    b.buffer.insert(0, b"package p\n");
    reparse_and_highlight(&mut b, &first);
    assert_eq!(*b.tree.as_ref().unwrap().language(), go());
    assert_eq!(b.flat_scopes[0], ScopeId::Keyword);
}

#[test]
fn only_trees_of_the_grammar_are_reused() {
    let json = Language::from(tree_sitter_json::LANGUAGE);
    let h = highlighter(KEYWORDS, "");
    let tree = parse(&h, "go", b"package p\n");
    assert!(tree_to_reuse(Some(&tree), &go()).is_some());
    assert!(tree_to_reuse(Some(&tree), &json).is_none());
    assert!(tree_to_reuse(None, &json).is_none());
}

#[test]
fn trees_of_other_texts_are_answered() {
    let h = highlighter(tree_sitter_go::HIGHLIGHTS_QUERY, "");
    let texts = [
        "",
        "package p\n",
        "// c\npackage main\nfunc f(a int) { return a + 1 }\n",
        "func func ) ] } 12 \"open\n",
        "package p\nvar x = `\nraw`\nvar y = []string{\"a\", \"b\"}\n",
    ];
    for a in texts {
        for b in texts {
            let mut eb = opened("go", b);
            eb.tree = Some(parse(&h, "go", a.as_bytes()));
            eb.buffer.insert(b.len() / 2, b" x ");
            reparse_and_highlight(&mut eb, &h);
            assert_eq!(eb.flat_scopes.len(), b.len() + 3);
        }
    }
    // A query on a tree of another grammar.
    let mut parser = Parser::new();
    parser.set_language(&Language::from(tree_sitter_json::LANGUAGE)).expect("language");
    let src = b"{\"a\": [1, true, null]}";
    let tree = parser.parse(src.as_slice(), None).expect("parse");
    for span in h.highlight("go", &tree, src) {
        assert!(span.start < span.end && span.end <= src.len());
    }
}
