//! Parsing with the tree-sitter crate. A grammar, a compiled query and a tree are
//! values of that crate; what its functions make of them has a name
//! each, and the rest of the library speaks of those names.
//!
//! The crate counts bytes in 32 bits, so a text or a query that it is given has
//! to be shorter than that.
use vstd::prelude::*;
use vstd::utf8::encode_utf8;
use tree_sitter::{InputEdit, Language, Node, Parser, Query, QueryCursor, StreamingIterator, Tree};
use crate::buffer::{Edit, Point};
use crate::highlight::{texts, Capture};

verus! {

#[verifier::external_type_specification]
#[verifier::external_body]
pub struct ExLanguage(tree_sitter::Language);

#[verifier::external_type_specification]
#[verifier::external_body]
pub struct ExQuery(tree_sitter::Query);

#[verifier::external_type_specification]
#[verifier::external_body]
pub struct ExTree(tree_sitter::Tree);

/// What `Query::new` makes of a query's text, or the text of its error.
pub uninterp spec fn compiled_query(language: Language, source: Seq<char>) -> Result<Query, Seq<char>>;

/// The capture names that `Query::capture_names` gives, by index.
pub uninterp spec fn capture_names_of(query: Query) -> Seq<Seq<char>>;

/// Whether `Parser::set_language` accepts a grammar.
pub uninterp spec fn accepted(language: Language) -> bool;

/// The grammar that `Tree::language` says a tree was parsed with.
pub uninterp spec fn grammar_of(tree: Tree) -> Language;

/// What `Tree::edit` makes of a tree.
pub uninterp spec fn edited(tree: Tree, e: Edit) -> Tree;

/// The tree that `Parser::parse` gives for a text, where `old_tree` is an
/// earlier tree that the edits since then were applied to; `None` where it gives
/// up.
pub uninterp spec fn parsed(
    language: Language,
    text: Seq<u8>,
    old_tree: Option<Tree>,
) -> Option<Tree>;

/// What `QueryCursor::matches` captures in a tree of a text, match by match.
pub uninterp spec fn captured(query: Query, tree: Tree, text: Seq<u8>) -> Seq<Capture>;

/// The outside crate takes texts of this length.
pub open spec fn parsable(len: int) -> bool {
    len < u32::MAX
}

pub open spec fn opt_tree(o: Option<&Tree>) -> Option<Tree> {
    match o {
        Some(t) => Some(*t),
        None => None,
    }
}

/// `Query::new`: the compiled query, or the error as it displays itself.
#[verifier::external_body]
pub(crate) fn compile_query(language: &Language, source: &str) -> (r: Result<Query, String>)
    requires
        parsable(encode_utf8(source@).len() as int),
    ensures
        match r {
            Ok(q) => compiled_query(*language, source@) == Ok::<Query, Seq<char>>(q),
            Err(e) => compiled_query(*language, source@) == Err::<Query, Seq<char>>(e@),
        },
{
    Query::new(language, source).map_err(|e| e.to_string())
}

/// `Query::capture_names`: the names of a query's captures, by index.
#[verifier::external_body]
pub(crate) fn capture_names(query: &Query) -> (r: Vec<String>)
    ensures
        texts(r@) == capture_names_of(*query),
{
    query.capture_names().iter().map(|n| n.to_string()).collect()
}

/// `Parser::set_language`, on a new parser: whether it accepts the grammar.
#[verifier::external_body]
pub(crate) fn accepts(language: &Language) -> (r: bool)
    ensures
        r == accepted(*language),
{
    Parser::new().set_language(language).is_ok()
}

/// `Tree::language`: whether a tree was parsed with this very grammar.
#[verifier::external_body]
pub(crate) fn has_grammar(tree: &Tree, language: &Language) -> (r: bool)
    ensures
        r == (grammar_of(*tree) == *language),
{
    *tree.language() == *language
}

/// `Parser::parse`, by a new parser for the grammar: the tree of a text. Parts of
/// the old tree are looked up in the parser's own tables, so it has to be a tree
/// of the same grammar.
#[verifier::external_body]
pub(crate) fn parse_text(
    language: &Language,
    bytes: &[u8],
    old_tree: Option<&Tree>,
) -> (r: Option<Tree>)
    requires
        parsable(bytes@.len() as int),
        old_tree matches Some(t) ==> grammar_of(*t) == *language,
    ensures
        r == parsed(*language, bytes@, opt_tree(old_tree)),
{
    let mut parser = Parser::new();
    parser.set_language(language).ok()?;
    parser.parse(bytes, old_tree)
}

/// `Tree::edit`: a tree after a change to its text.
#[verifier::external_body]
pub(crate) fn edit_tree(tree: &mut Tree, e: &Edit)
    ensures
        *final(tree) == edited(*old(tree), *e),
{
    let at = |p: &Point| tree_sitter::Point { row: p.row, column: p.column };
    tree.edit(
        &InputEdit {
            start_byte: e.start_byte,
            old_end_byte: e.old_end_byte,
            new_end_byte: e.new_end_byte,
            start_position: at(&e.start_position),
            old_end_position: at(&e.old_end_position),
            new_end_position: at(&e.new_end_position),
        },
    );
}

/// The bytes from `start` to `end`, as far as there are any.
pub open spec fn piece_of(s: Seq<u8>, start: int, end: int) -> Seq<u8> {
    if 0 <= start <= end <= s.len() {
        s.subrange(start, end)
    } else {
        Seq::empty()
    }
}

/// The bytes of a node, which a query's conditions on text look at.
pub fn piece(bytes: &[u8], start: usize, end: usize) -> (r: &[u8])
    ensures
        r@ == piece_of(bytes@, start as int, end as int),
{
    if start <= end && end <= bytes.len() {
        vstd::slice::slice_subrange(bytes, start, end)
    } else {
        let none: &[u8] = &[];
        assert(none@ =~= Seq::<u8>::empty());
        none
    }
}

/// `QueryCursor::matches`, walked to its end: each captured node's index and
/// bytes, in the order in which they come.
#[verifier::external_body]
pub(crate) fn run_query(query: &Query, tree: &Tree, bytes: &[u8]) -> (r: Vec<Capture>)
    requires
        parsable(bytes@.len() as int),
    ensures
        r@ == captured(*query, *tree, bytes@),
{
    let mut cursor = QueryCursor::new();
    let text = |n: Node| std::iter::once(piece(bytes, n.start_byte(), n.end_byte()));
    let mut matches = cursor.matches(query, tree.root_node(), text);
    let mut found = Vec::new();
    while let Some(m) = matches.next() {
        for c in m.captures {
            let (start, end) = (c.node.start_byte(), c.node.end_byte());
            found.push(Capture { index: c.index as usize, start, end });
        }
    }
    found
}

/// A tree as far as a parse with the grammar can start from it.
pub open spec fn reusable(tree: Option<Tree>, language: Language) -> Option<Tree> {
    match tree {
        Some(t) => if grammar_of(t) == language {
            Some(t)
        } else {
            None
        },
        None => None,
    }
}

/// A tree, if it was parsed with the grammar.
pub fn tree_to_reuse<'a>(tree: Option<&'a Tree>, language: &Language) -> (r: Option<&'a Tree>)
    ensures
        opt_tree(r) == reusable(opt_tree(tree), *language),
{
    match tree {
        Some(t) => {
            if has_grammar(t, language) {
                Some(t)
            } else {
                None
            }
        },
        None => None,
    }
}

/// A tree after several changes to its text.
pub open spec fn edited_all(tree: Tree, edits: Seq<Edit>) -> Tree
    decreases edits.len(),
{
    if edits.len() == 0 {
        tree
    } else {
        edited(edited_all(tree, edits.drop_last()), edits.last())
    }
}

/// Apply the changes to a text to its tree, in order.
pub fn edit_tree_all(tree: &mut Tree, edits: &[Edit])
    ensures
        *final(tree) == edited_all(*old(tree), edits@),
{
    let mut i: usize = 0;
    let ghost before = *tree;
    assert(edits@.take(0) =~= Seq::<Edit>::empty());
    while i < edits.len()
        invariant
            i <= edits@.len(),
            *tree == edited_all(before, edits@.take(i as int)),
        decreases edits@.len() - i,
    {
        assert(edits@.take(i + 1).drop_last() =~= edits@.take(i as int));
        edit_tree(tree, &edits[i]);
        i += 1;
    }
    assert(edits@.take(i as int) =~= edits@);
}

}
