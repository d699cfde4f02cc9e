//! Smart indentation: how deep a new line is nested in open brackets.
use vstd::prelude::*;
use crate::format::{push_run, run_of};
use crate::strings::str_eq;
use crate::text::{imax, imin, text_fits};

verus! {

/// Width of one indent level, in spaces.
pub const INDENT_WIDTH: usize = 4;

pub const BAR: u8 = 0x7c;

/// Length of the bracket token at `i`, which may not reach past `n`.
pub open spec fn token_len(s: Seq<u8>, i: int, n: int) -> int {
    if i + 2 <= n && (s[i] == 0x5b && s[i + 1] == BAR || s[i] == BAR && s[i + 1] == 0x5d) {
        2
    } else {
        1
    }
}

/// By how much the token at `i` changes the nesting depth.
pub open spec fn token_depth(s: Seq<u8>, i: int, n: int) -> int {
    if token_len(s, i, n) == 2 {
        if s[i] == 0x5b { 1 } else { -1 }
    } else if s[i] == 0x5b || s[i] == 0x28 || s[i] == 0x7b {
        1
    } else if s[i] == 0x5d || s[i] == 0x29 || s[i] == 0x7d {
        -1
    } else {
        0
    }
}

/// How many brackets are open at `n` when `open` of them are open at `i`. A
/// closing bracket that nothing was opened for closes nothing.
pub open spec fn open_at(s: Seq<u8>, i: int, n: int, open: int) -> int
    decreases n - i,
{
    if i >= n {
        open
    } else {
        open_at(s, i + token_len(s, i, n), n, imax(open + token_depth(s, i, n), 0))
    }
}

/// The indent level of a new line at `pos`: only mshell is known.
pub open spec fn level_of(lang: Seq<char>, s: Seq<u8>, pos: int) -> int {
    if lang == "mshell"@ { open_at(s, 0, imin(pos, s.len() as int), 0) } else { 0 }
}

pub struct Indenter {}

impl Indenter {
    pub fn new() -> (i: Indenter)
        ensures
            i == (Indenter {  }),
    {
        Indenter {  }
    }

    /// How many brackets before `byte_pos` are still open; 0 in a language
    /// that is not known.
    pub fn level_for(&self, lang_id: &str, bytes: &[u8], byte_pos: usize) -> (r: usize)
        ensures
            r == level_of(lang_id@, bytes@, byte_pos as int),
            r <= bytes@.len(),
    {
        if !str_eq(lang_id, "mshell") {
            return 0;
        }
        let n: usize = if byte_pos < bytes.len() { byte_pos } else { bytes.len() };
        let mut depth: usize = 0;
        let mut i: usize = 0;
        while i < n
            invariant
                i <= n <= bytes@.len(),
                depth <= i,
                open_at(bytes@, i as int, n as int, depth as int) == open_at(bytes@, 0, n as int, 0),
            decreases n - i,
        {
            let b: u8 = bytes[i];
            let pair: bool = n - i >= 2 && ((b == 0x5b && bytes[i + 1] == BAR) || (b == BAR
                && bytes[i + 1] == 0x5d));
            if pair {
                if b == 0x5b {
                    depth += 1;
                } else if depth > 0 {
                    depth -= 1;
                }
                i += 2;
            } else {
                if b == 0x5b || b == 0x28 || b == 0x7b {
                    depth += 1;
                } else if (b == 0x5d || b == 0x29 || b == 0x7d) && depth > 0 {
                    depth -= 1;
                }
                i += 1;
            }
        }
        depth
    }

    /// The indent of a new line at `byte_pos`, as spaces.
    pub fn indent_for(&self, lang_id: &str, bytes: &[u8], byte_pos: usize) -> (r: String)
        requires
            text_fits(bytes@),
        ensures
            r@ == run_of(' ', level_of(lang_id@, bytes@, byte_pos as int) * INDENT_WIDTH),
    {
        let level: usize = self.level_for(lang_id, bytes, byte_pos);
        let mut r = String::new();
        push_run(&mut r, ' ', level * INDENT_WIDTH);
        assert(r@ =~= run_of(' ', level * INDENT_WIDTH));
        r
    }
}

impl Default for Indenter {
    fn default() -> (i: Indenter)
        ensures
            i == (Indenter {  }),
    {
        Indenter::new()
    }
}

// ---------------------------------------------------------------------------
// Laws
// ---------------------------------------------------------------------------

/// How many brackets are open behind a byte when `open` were open before it.
pub open spec fn nested(b: u8, open: int) -> int {
    if b == '(' as u8 || b == '[' as u8 || b == '{' as u8 {
        open + 1
    } else if (b == ')' as u8 || b == ']' as u8 || b == '}' as u8) && open > 0 {
        open - 1
    } else {
        open
    }
}

spec fn nested_upto(s: Seq<u8>, i: int, n: int, open: int) -> int
    decreases n - i,
{
    if i >= n {
        open
    } else {
        nested(s[n - 1], nested_upto(s, i, n - 1, open))
    }
}

proof fn lemma_nested_front(s: Seq<u8>, i: int, n: int, open: int)
    requires
        i < n,
    ensures
        nested_upto(s, i, n, open) == nested_upto(s, i + 1, n, nested(s[i], open)),
    decreases n - i,
{
    if i + 1 < n {
        lemma_nested_front(s, i, n - 1, open);
    } else {
        assert(nested_upto(s, i, n - 1, open) == open);
    }
}

proof fn lemma_open_is_nested(s: Seq<u8>, i: int, n: int, open: int)
    requires
        0 <= i,
        n <= s.len(),
        open >= 0,
    ensures
        open_at(s, i, n, open) == nested_upto(s, i, n, open),
    decreases n - i,
{
    if i < n {
        lemma_nested_front(s, i, n, open);
        if token_len(s, i, n) == 2 {
            lemma_nested_front(s, i + 1, n, nested(s[i], open));
            lemma_open_is_nested(s, i + 2, n, imax(open + token_depth(s, i, n), 0));
        } else {
            lemma_open_is_nested(s, i + 1, n, imax(open + token_depth(s, i, n), 0));
        }
    }
}

/// The level starts at none and follows the brackets byte by byte: an opening one
/// raises it, a closing one lowers it unless it is none, and the rest leave it.
/// Bars next to brackets change nothing, nor does a place behind the text.
pub proof fn levels_follow_the_brackets(s: Seq<u8>, n: int)
    requires
        0 <= n < s.len(),
    ensures
        level_of("mshell"@, s, 0) == 0,
        level_of("mshell"@, s, n + 1) == nested(s[n], level_of("mshell"@, s, n)),
        level_of("mshell"@, s, s.len() + n) == level_of("mshell"@, s, s.len() as int),
{
    lemma_open_is_nested(s, 0, n, 0);
    lemma_open_is_nested(s, 0, n + 1, 0);
    lemma_open_is_nested(s, 0, 0, 0);
}

/// In a language that is not known nothing is indented.
pub proof fn other_languages_have_no_levels(lang: Seq<char>, s: Seq<u8>, n: int)
    requires
        lang != "mshell"@,
    ensures
        level_of(lang, s, n) == 0,
{
}

}
