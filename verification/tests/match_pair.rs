use medit::object::{match_pair, Block};

/// The block of `src` whose opening token is the first `open` at or after
/// `from`, and whose closing token is the `close` that starts at `close_at`.
fn block(src: &str, from: usize, open: &str, close: &str, close_at: usize) -> Block {
    let start = from + src[from..].find(open).expect("opening token");
    assert!(src[close_at..].starts_with(close));
    Block {
        start,
        open_end: start + open.len(),
        close_start: close_at,
        end: close_at + close.len(),
    }
}

/// The text that `%` selects with the cursor at byte `head`, in a text whose
/// grammar gives these blocks. The selection covers `src[min..=max]`.
fn selected(src: &str, blocks: &[Block], head: usize) -> Option<String> {
    let (anchor, h) = match_pair(src.as_bytes(), Some(blocks), head)?;
    let (lo, hi) = (anchor.min(h), anchor.max(h));
    Some(src[lo..=hi].to_string())
}

/// Byte offset of the first occurrence of `needle` in `src`.
fn at(src: &str, needle: &str) -> usize {
    src.find(needle).expect("needle present")
}

#[test]
fn definition_block_from_def_and_end() {
    let src = "def square (int -- int) dup * end\n";
    let block_text = "def square (int -- int) dup * end";
    let blocks = [
        block(src, 0, "def", "end", at(src, "end")),
        block(src, 0, "(", ")", at(src, ")")),
    ];
    // On `def`.
    assert_eq!(selected(src, &blocks, at(src, "def")).as_deref(), Some(block_text));
    // On `end` (last char).
    let end_last = at(src, "end") + 2;
    assert_eq!(selected(src, &blocks, end_last).as_deref(), Some(block_text));
}

#[test]
fn quotation_brackets_both_ends() {
    let src = "( 1 2 + )\n";
    let q = "( 1 2 + )";
    let blocks = [block(src, 0, "(", ")", at(src, ")"))];
    assert_eq!(selected(src, &blocks, at(src, "(")).as_deref(), Some(q));
    assert_eq!(selected(src, &blocks, at(src, ")")).as_deref(), Some(q));
}

#[test]
fn list_brackets() {
    let src = "[1 2 3]\n";
    let blocks = [block(src, 0, "[", "]", at(src, "]"))];
    assert_eq!(selected(src, &blocks, at(src, "[")).as_deref(), Some("[1 2 3]"));
    assert_eq!(selected(src, &blocks, at(src, "]")).as_deref(), Some("[1 2 3]"));
}

#[test]
fn if_block_ignores_else_branch_as_one_region() {
    // The condition (`true`) is outside the block, which runs if..end.
    let src = "true if \"a\" wl else \"b\" wl end\n";
    let block_text = "if \"a\" wl else \"b\" wl end";
    let blocks = [block(src, 0, "if", "end", at(src, "end"))];
    assert_eq!(selected(src, &blocks, at(src, "if")).as_deref(), Some(block_text));
    let end_last = src.rfind("end").unwrap() + 2;
    assert_eq!(selected(src, &blocks, end_last).as_deref(), Some(block_text));
}

#[test]
fn nested_prefix_quote_blocks_respect_nesting() {
    let src = "[[1 2 3] [4 5 6]] map. filter. 5 > end end\n";
    let blocks = [
        block(src, 0, "[", "]", at(src, "]]") + 1),
        block(src, 1, "[", "]", at(src, "]")),
        block(src, 2, "[", "]", at(src, "]]")),
        block(src, 0, "map.", "end", src.rfind("end").unwrap()),
        block(src, 0, "filter.", "end", at(src, "end")),
    ];
    // Outer block starts at `map.` and closes at the LAST `end`.
    let outer = "map. filter. 5 > end end";
    assert_eq!(selected(src, &blocks, at(src, "map.")).as_deref(), Some(outer));
    // Inner block starts at `filter.` and closes at the FIRST `end`.
    let inner = "filter. 5 > end";
    assert_eq!(selected(src, &blocks, at(src, "filter.")).as_deref(), Some(inner));
    // The first `end` belongs to the inner block.
    let first_end_last = at(src, "end") + 2;
    assert_eq!(selected(src, &blocks, first_end_last).as_deref(), Some(inner));
    // The last `end` belongs to the outer block.
    let last_end_last = src.rfind("end").unwrap() + 2;
    assert_eq!(selected(src, &blocks, last_end_last).as_deref(), Some(outer));
}

#[test]
fn match_block_from_keyword() {
    let src = "10 match int : wl, _ : wl, end\n";
    let block_text = "match int : wl, _ : wl, end";
    let blocks = [block(src, 0, "match", "end", at(src, "end"))];
    assert_eq!(selected(src, &blocks, at(src, "match")).as_deref(), Some(block_text));
}

#[test]
fn forward_scan_when_not_on_a_delimiter() {
    // Cursor on `true` (offset 0), not a delimiter; `%` scans right to `if`.
    let src = "true if \"a\" wl end\n";
    let block_text = "if \"a\" wl end";
    let blocks = [block(src, 0, "if", "end", at(src, "end"))];
    assert_eq!(selected(src, &blocks, 0).as_deref(), Some(block_text));
}

#[test]
fn matchit_no_match_returns_none() {
    // A line with no bracket or block delimiter at or after the cursor.
    let src = "1 2 + dup\n";
    assert_eq!(selected(src, &[], 0), None);
    assert_eq!(selected_no_tree(src, 0), None);
}

/// As `selected`, in a text without a grammar: the delimiters are brackets.
fn selected_no_tree(src: &str, head: usize) -> Option<String> {
    let (anchor, h) = match_pair(src.as_bytes(), None, head)?;
    let (lo, hi) = (anchor.min(h), anchor.max(h));
    Some(src[lo..=hi].to_string())
}

#[test]
fn byte_fallback_matches_nested_brackets() {
    let src = "foo (a (b) c) bar\n";
    let outer = "(a (b) c)";
    // On the outer '(': nesting is respected, jumps to the outer ')'.
    assert_eq!(selected_no_tree(src, at(src, "(")).as_deref(), Some(outer));
    // On the outer ')'.
    let close = src.rfind(')').unwrap();
    assert_eq!(selected_no_tree(src, close).as_deref(), Some(outer));
    // Forward scan: cursor on `foo`, first bracket to the right is the outer '('.
    assert_eq!(selected_no_tree(src, 0).as_deref(), Some(outer));
}

#[test]
fn byte_fallback_braces_and_squares() {
    assert_eq!(selected_no_tree("x {1 2} y\n", 2).as_deref(), Some("{1 2}"));
    assert_eq!(selected_no_tree("[a b]\n", 0).as_deref(), Some("[a b]"));
}

#[test]
fn matching_twice_returns_to_the_bracket() {
    let src = b"f({[]}) tail";
    let (p, q) = match_pair(src, None, 0).unwrap();
    assert_eq!((p, q), (1, 6));
    assert_eq!(match_pair(src, None, q), Some((6, 1)));
    // The search does not leave the line, and an open group has no match.
    assert_eq!(match_pair(b"a\n(b)", None, 0), None);
    assert_eq!(match_pair(b"((a)", None, 0), None);
}
