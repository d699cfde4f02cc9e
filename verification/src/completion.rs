//! Completion: when to ask for it, what was offered, and what of it fits the
//! word under the cursor. It depends on the bytes around the cursor and on
//! rules per language; there is no server and no screen in it.
//!
//! - Python: `.` asks at once; so does the second character of a word.
//! - mshell: `@` asks at once, and is part of what an accepted item replaces.
//! - djot: the third character of a word asks, and the words of the buffer
//!   itself are offered.
use vstd::prelude::*;
use vstd::utf8::encode_utf8;
use crate::json::{lemma_json_views, json_views, Json, JsonView};
use crate::sort::{
    ranked, ranked_is_a_ranked_permutation, ranking_commutes_with_maps, sort_ranked, Rank, Ranked,
};
use crate::strings::{
    bytes_eq, has_prefix, lex_less_is_total, lower_byte, lowercase, starts_with, str_eq, str_less,
    text_less, to_lower_byte, to_lowercase,
};
use crate::text::{imin, same_numbers};

verus! {

/// When a language opens the completion popup.
pub struct CompletionTriggers {
    /// Characters that ask for completion as soon as they are typed.
    pub chars: Vec<TriggerChar>,
    /// Ask as well when the word before the cursor reaches this many
    /// characters, and only then.
    pub min_identifier_prefix: Option<u8>,
}

#[derive(Clone, Copy)]
pub struct TriggerChar {
    pub ch: char,
    /// Whether an accepted item replaces the character too.
    pub anchor_includes_char: bool,
}

/// What `detect` found at the cursor.
pub enum TriggerDecision {
    /// Nothing to complete here.
    Nothing,
    Trigger {
        /// The cursor.
        position: usize,
        /// Where the text that an accepted item replaces begins.
        anchor: usize,
        /// The character that asked, if one did.
        trigger_char: Option<char>,
    },
}

/// Bytes that words are made of.
pub open spec fn is_ident(b: u8) -> bool {
    b == 0x5f || 0x30 <= b <= 0x39 || 0x41 <= b <= 0x5a || 0x61 <= b <= 0x7a
}

pub fn is_ident_byte(b: u8) -> (r: bool)
    ensures
        r == is_ident(b),
{
    b == 0x5f || (0x30 <= b && b <= 0x39) || (0x41 <= b && b <= 0x5a) || (0x61 <= b && b <= 0x7a)
}

/// The rules of a language: the characters that ask, and the word length that
/// does.
pub open spec fn rules_of(lang: Seq<char>) -> Option<(Seq<TriggerChar>, Option<u8>)> {
    if lang == "python"@ {
        Some((seq![TriggerChar { ch: '.', anchor_includes_char: false }], Some(2u8)))
    } else if lang == "mshell"@ {
        Some((seq![TriggerChar { ch: '@', anchor_includes_char: true }], None))
    } else if lang == "djot"@ {
        Some((Seq::empty(), Some(3u8)))
    } else {
        None
    }
}

/// The rules of a language; `None` where there are none, and so no completion.
pub fn triggers_for(lang_id: &str) -> (r: Option<CompletionTriggers>)
    ensures
        r is Some <==> rules_of(lang_id@) is Some,
        r matches Some(t) ==> rules_of(lang_id@) == Some((t.chars@, t.min_identifier_prefix)),
{
    let mut chars: Vec<TriggerChar> = Vec::new();
    if str_eq(lang_id, "python") {
        chars.push(TriggerChar { ch: '.', anchor_includes_char: false });
        assert(chars@ =~= seq![TriggerChar { ch: '.', anchor_includes_char: false }]);
        Some(CompletionTriggers { chars, min_identifier_prefix: Some(2) })
    } else if str_eq(lang_id, "mshell") {
        chars.push(TriggerChar { ch: '@', anchor_includes_char: true });
        assert(chars@ =~= seq![TriggerChar { ch: '@', anchor_includes_char: true }]);
        Some(CompletionTriggers { chars, min_identifier_prefix: None })
    } else if str_eq(lang_id, "djot") {
        Some(CompletionTriggers { chars, min_identifier_prefix: Some(3) })
    } else {
        None
    }
}

/// Whether a language completes from the words of the buffer.
pub fn is_buffer_source(lang_id: &str) -> (r: bool)
    ensures
        r == (lang_id@ == "djot"@),
{
    str_eq(lang_id, "djot")
}

// ---------------------------------------------------------------------------
// When to ask
// ---------------------------------------------------------------------------

/// The first rule from the `i`-th on whose character is ASCII and is the byte
/// `b`.
pub open spec fn rule_for(chars: Seq<TriggerChar>, b: u8, i: int) -> Option<TriggerChar>
    decreases chars.len() - i,
{
    if i >= chars.len() {
        None
    } else if (chars[i].ch as int) < 128 && chars[i].ch as int == b as int {
        Some(chars[i])
    } else {
        rule_for(chars, b, i + 1)
    }
}

/// Just before `cursor` stands a word of exactly `n` bytes that does not begin
/// with a digit.
pub open spec fn word_of_length(s: Seq<u8>, cursor: int, n: int) -> bool {
    &&& 1 <= n <= cursor
    &&& forall|i: int| cursor - n <= i < cursor ==> is_ident(#[trigger] s[i])
    &&& cursor - n == 0 || !is_ident(s[cursor - n - 1])
    &&& !(0x30 <= s[cursor - n] <= 0x39)
}

pub open spec fn decision(
    s: Seq<u8>,
    cursor: int,
    chars: Seq<TriggerChar>,
    min: Option<u8>,
) -> TriggerDecision {
    if cursor <= 0 || cursor > s.len() {
        TriggerDecision::Nothing
    } else {
        match rule_for(chars, s[cursor - 1], 0) {
            Some(rule) => TriggerDecision::Trigger {
                position: cursor as usize,
                anchor: (if rule.anchor_includes_char { cursor - 1 } else { cursor }) as usize,
                trigger_char: Some(rule.ch),
            },
            None => if min is Some && word_of_length(s, cursor, min->0 as int) {
                TriggerDecision::Trigger {
                    position: cursor as usize,
                    anchor: (cursor - min->0) as usize,
                    trigger_char: None,
                }
            } else {
                TriggerDecision::Nothing
            },
        }
    }
}

/// Whether to ask for completion at `cursor`. A rule for the character before
/// it comes first; then the length of the word that ends there.
pub fn detect(bytes: &[u8], cursor: usize, triggers: &CompletionTriggers) -> (r: TriggerDecision)
    ensures
        r == decision(bytes@, cursor as int, triggers.chars@, triggers.min_identifier_prefix),
{
    if cursor == 0 || cursor > bytes.len() {
        return TriggerDecision::Nothing;
    }
    let last: u8 = bytes[cursor - 1];
    let mut i: usize = 0;
    while i < triggers.chars.len()
        invariant
            i <= triggers.chars@.len(),
            0 < cursor <= bytes@.len(),
            last == bytes@[cursor - 1],
            rule_for(triggers.chars@, last, i as int) == rule_for(triggers.chars@, last, 0),
        decreases triggers.chars@.len() - i,
    {
        let rule = triggers.chars[i];
        if (rule.ch as u32) < 128 && rule.ch as u32 == last as u32 {
            let anchor: usize = if rule.anchor_includes_char {
                cursor - 1
            } else {
                cursor
            };
            return TriggerDecision::Trigger {
                position: cursor,
                anchor,
                trigger_char: Some(rule.ch),
            };
        }
        i += 1;
    }
    if let Some(n) = triggers.min_identifier_prefix {
        if ends_word_of_length(bytes, cursor, n as usize) {
            return TriggerDecision::Trigger {
                position: cursor,
                anchor: cursor - n as usize,
                trigger_char: None,
            };
        }
    }
    TriggerDecision::Nothing
}

fn ends_word_of_length(bytes: &[u8], cursor: usize, n: usize) -> (r: bool)
    requires
        cursor <= bytes@.len(),
    ensures
        r == word_of_length(bytes@, cursor as int, n as int),
{
    if n < 1 || cursor < n {
        return false;
    }
    let start: usize = cursor - n;
    let mut i: usize = start;
    while i < cursor
        invariant
            start == cursor - n,
            1 <= n,
            start <= i <= cursor <= bytes@.len(),
            forall|j: int| start <= j < i ==> is_ident(#[trigger] bytes@[j]),
        decreases cursor - i,
    {
        if !is_ident_byte(bytes[i]) {
            return false;
        }
        i += 1;
    }
    if start > 0 && is_ident_byte(bytes[start - 1]) {
        return false;
    }
    !(0x30 <= bytes[start] && bytes[start] <= 0x39)
}

/// Where the word that ends at `cursor` begins.
pub open spec fn ident_start(s: Seq<u8>, cursor: int) -> int
    decreases cursor,
{
    if 0 < cursor && is_ident(s[cursor - 1]) {
        ident_start(s, cursor - 1)
    } else {
        cursor
    }
}

/// Where the word that ends at `cursor` begins; `cursor` itself where no word
/// ends. A cursor behind the text counts as its end.
pub fn ident_prefix_start(bytes: &[u8], cursor: usize) -> (r: usize)
    ensures
        r == ident_start(bytes@, imin(cursor as int, bytes@.len() as int)),
        r <= cursor,
        r <= bytes@.len(),
{
    let mut a: usize = if cursor < bytes.len() {
        cursor
    } else {
        bytes.len()
    };
    let ghost end = a;
    while a > 0 && is_ident_byte(bytes[a - 1])
        invariant
            a <= end <= bytes@.len(),
            end <= cursor,
            ident_start(bytes@, a as int) == ident_start(bytes@, end as int),
        decreases a,
    {
        a -= 1;
    }
    a
}

// ---------------------------------------------------------------------------
// Items
// ---------------------------------------------------------------------------

/// One thing that the popup offers.
pub struct CompletionItem {
    /// What is shown.
    pub label: String,
    /// What the typed prefix is held against.
    pub filter_text: String,
    /// What an accepted item writes.
    pub insert_text: String,
    /// What the items are sorted by.
    pub sort_text: String,
    /// What is shown beside the label.
    pub detail: Option<String>,
}

/// A completion item by its characters.
#[verifier::ext_equal]
pub struct ItemView {
    pub label: Seq<char>,
    pub filter_text: Seq<char>,
    pub insert_text: Seq<char>,
    pub sort_text: Seq<char>,
    pub detail: Option<Seq<char>>,
}

pub open spec fn opt_text(o: Option<String>) -> Option<Seq<char>> {
    match o {
        Some(s) => Some(s@),
        None => None,
    }
}

impl View for CompletionItem {
    type V = ItemView;

    open spec fn view(&self) -> ItemView {
        ItemView {
            label: self.label@,
            filter_text: self.filter_text@,
            insert_text: self.insert_text@,
            sort_text: self.sort_text@,
            detail: opt_text(self.detail),
        }
    }
}

impl Clone for CompletionItem {
    fn clone(&self) -> (r: CompletionItem)
        ensures
            r@ == self@,
    {
        let detail: Option<String> = match &self.detail {
            Some(d) => Some(d.clone()),
            None => None,
        };
        CompletionItem {
            label: self.label.clone(),
            filter_text: self.filter_text.clone(),
            insert_text: self.insert_text.clone(),
            sort_text: self.sort_text.clone(),
            detail,
        }
    }
}

pub open spec fn items_of(s: Seq<CompletionItem>) -> Seq<ItemView> {
    s.map_values(|i: CompletionItem| i@)
}

/// `a` comes before `b`: by the sort text, and by the label where that is the
/// same.
pub open spec fn item_below(a: ItemView, b: ItemView) -> bool {
    text_less(a.sort_text, b.sort_text) || (a.sort_text == b.sort_text && text_less(
        a.label,
        b.label,
    ))
}

impl Rank for ItemView {
    open spec fn below(&self, other: &Self) -> bool {
        item_below(*self, *other)
    }

    proof fn below_is_strict_weak(a: &Self, b: &Self, c: &Self) {
        lemma_item_order(*a, *b, *c);
    }
}

impl Rank for CompletionItem {
    open spec fn below(&self, other: &Self) -> bool {
        item_below(self@, other@)
    }

    proof fn below_is_strict_weak(a: &Self, b: &Self, c: &Self) {
        lemma_item_order(a@, b@, c@);
    }
}

impl Ranked for CompletionItem {
    fn is_below(&self, other: &Self) -> (r: bool) {
        if str_less(self.sort_text.as_str(), other.sort_text.as_str()) {
            return true;
        }
        str_eq(self.sort_text.as_str(), other.sort_text.as_str()) && str_less(
            self.label.as_str(),
            other.label.as_str(),
        )
    }
}

proof fn lemma_text_order(a: Seq<char>, b: Seq<char>, c: Seq<char>)
    ensures
        !text_less(a, a),
        text_less(a, b) && text_less(b, c) ==> text_less(a, c),
        !text_less(a, b) && !text_less(b, a) ==> a == b,
{
    lex_less_is_total(encode_utf8(a), encode_utf8(b), encode_utf8(c));
    vstd::utf8::encode_utf8_decode_utf8(a);
    vstd::utf8::encode_utf8_decode_utf8(b);
}

proof fn lemma_item_order(a: ItemView, b: ItemView, c: ItemView)
    ensures
        !item_below(a, a),
        item_below(a, b) && item_below(b, c) ==> item_below(a, c),
        !item_below(a, b) && !item_below(b, c) ==> !item_below(a, c),
{
    lemma_text_order(a.sort_text, b.sort_text, c.sort_text);
    lemma_text_order(c.sort_text, b.sort_text, a.sort_text);
    lemma_text_order(b.sort_text, c.sort_text, a.sort_text);
    lemma_text_order(a.sort_text, c.sort_text, b.sort_text);
    lemma_text_order(c.sort_text, a.sort_text, b.sort_text);
    lemma_text_order(b.sort_text, a.sort_text, c.sort_text);
    lemma_text_order(a.label, b.label, c.label);
    lemma_text_order(c.label, b.label, a.label);
    lemma_text_order(b.label, c.label, a.label);
    lemma_text_order(a.label, c.label, b.label);
    lemma_text_order(c.label, a.label, b.label);
    lemma_text_order(b.label, a.label, c.label);
}

/// Sort items by sort text and label; equal ones keep their order.
pub fn sort_items(items: Vec<CompletionItem>) -> (r: Vec<CompletionItem>)
    ensures
        items_of(r@) == ranked(items_of(items@)),
{
    proof {
        ranking_commutes_with_maps(items@, |i: CompletionItem| i@);
    }
    sort_ranked(items)
}

// ---------------------------------------------------------------------------
// Words of the buffer
// ---------------------------------------------------------------------------

/// The most words of a buffer that are offered at once.
pub const MAX_BUFFER_WORDS: usize = 200;

/// Where the word that covers `i` ends.
pub open spec fn ident_end(s: Seq<u8>, i: int) -> int
    decreases s.len() - i,
{
    if 0 <= i < s.len() && is_ident(s[i]) {
        ident_end(s, i + 1)
    } else {
        i
    }
}

pub proof fn lemma_ident_end(s: Seq<u8>, i: int)
    requires
        0 <= i <= s.len(),
    ensures
        i <= ident_end(s, i) <= s.len(),
        i < s.len() && is_ident(s[i]) ==> i < ident_end(s, i),
    decreases s.len() - i,
{
    if i < s.len() && is_ident(s[i]) {
        lemma_ident_end(s, i + 1);
    }
}

/// The words of `s` from `i` on, in order.
pub open spec fn words_from(s: Seq<u8>, i: int) -> Seq<Seq<u8>>
    decreases s.len() - i,
{
    if i < 0 || i >= s.len() {
        Seq::empty()
    } else if is_ident(s[i]) {
        proof {
            lemma_ident_end(s, i);
        }
        seq![s.subrange(i, ident_end(s, i))] + words_from(s, ident_end(s, i))
    } else {
        words_from(s, i + 1)
    }
}

pub open spec fn lower_bytes(s: Seq<u8>) -> Seq<u8> {
    s.map_values(|b: u8| lower_byte(b))
}

/// `word` is longer than `prefix` and starts with it, but for the case of
/// ASCII letters.
pub open spec fn completes(word: Seq<u8>, prefix: Seq<u8>) -> bool {
    word.len() > prefix.len() && lower_bytes(word.take(prefix.len() as int)) == lower_bytes(prefix)
}

/// `s` without repetitions: the first of equal members stays.
pub open spec fn distinct(s: Seq<Seq<u8>>) -> Seq<Seq<u8>>
    decreases s.len(),
{
    if s.len() == 0 {
        s
    } else {
        let d = distinct(s.drop_last());
        if d.contains(s.last()) {
            d
        } else {
            d.push(s.last())
        }
    }
}

pub open spec fn ascii_text(w: Seq<u8>) -> Seq<char> {
    w.map_values(|b: u8| b as char)
}

/// A text that stands for itself in every respect.
pub open spec fn plain_item(t: Seq<char>) -> ItemView {
    ItemView { label: t, filter_text: t, insert_text: t, sort_text: t, detail: None }
}

/// The words of `s` that complete `prefix`, without repetitions.
pub open spec fn matching_words(s: Seq<u8>, prefix: Seq<u8>) -> Seq<Seq<u8>> {
    distinct(words_from(s, 0).filter(|w: Seq<u8>| completes(w, prefix)))
}

/// What the buffer-word source offers.
pub open spec fn word_items(s: Seq<u8>, prefix: Seq<u8>) -> Seq<ItemView> {
    if prefix.len() == 0 {
        Seq::empty()
    } else {
        let all = ranked(
            matching_words(s, prefix).map_values(|w: Seq<u8>| plain_item(ascii_text(w))),
        );
        all.take(imin(all.len() as int, MAX_BUFFER_WORDS as int))
    }
}

fn word_completes(word: &[u8], prefix: &[u8]) -> (r: bool)
    ensures
        r == completes(word@, prefix@),
{
    if word.len() <= prefix.len() {
        return false;
    }
    let ghost a = lower_bytes(word@.take(prefix@.len() as int));
    let ghost b = lower_bytes(prefix@);
    let mut i: usize = 0;
    while i < prefix.len()
        invariant
            i <= prefix@.len() < word@.len(),
            a == lower_bytes(word@.take(prefix@.len() as int)),
            b == lower_bytes(prefix@),
            forall|j: int| 0 <= j < i ==> a[j] == b[j],
        decreases prefix@.len() - i,
    {
        if to_lower_byte(word[i]) != to_lower_byte(prefix[i]) {
            assert(a[i as int] != b[i as int]);
            return false;
        }
        assert(a[i as int] == b[i as int]);
        i += 1;
    }
    assert(a =~= b);
    true
}

pub open spec fn byte_lists(v: Seq<Vec<u8>>) -> Seq<Seq<u8>> {
    v.map_values(|w: Vec<u8>| w@)
}

fn holds_word(words: &Vec<Vec<u8>>, w: &[u8]) -> (r: bool)
    ensures
        r == byte_lists(words@).contains(w@),
{
    let mut i: usize = 0;
    while i < words.len()
        invariant
            i <= words@.len(),
            forall|j: int| 0 <= j < i ==> byte_lists(words@)[j] != w@,
        decreases words@.len() - i,
    {
        if bytes_eq(words[i].as_slice(), w) {
            assert(byte_lists(words@)[i as int] == w@);
            return true;
        }
        i += 1;
    }
    false
}

fn find_words(bytes: &[u8], prefix: &[u8]) -> (r: Vec<Vec<u8>>)
    ensures
        byte_lists(r@) == matching_words(bytes@, prefix@),
{
    let mut kept: Vec<Vec<u8>> = Vec::new();
    let ghost fits = |w: Seq<u8>| completes(w, prefix@);
    let ghost mut seen: Seq<Seq<u8>> = Seq::empty();
    let ghost all = words_from(bytes@, 0);
    let mut i: usize = 0;
    proof {
        reveal(Seq::filter);
        assert(seen + words_from(bytes@, 0) =~= all);
        assert(byte_lists(kept@) =~= Seq::<Seq<u8>>::empty());
    }
    while i < bytes.len()
        invariant
            i <= bytes@.len(),
            fits == (|w: Seq<u8>| completes(w, prefix@)),
            all == words_from(bytes@, 0),
            seen + words_from(bytes@, i as int) == all,
            byte_lists(kept@) == distinct(seen.filter(fits)),
        decreases bytes@.len() - i,
    {
        if !is_ident_byte(bytes[i]) {
            i += 1;
            continue;
        }
        let start: usize = i;
        proof {
            lemma_ident_end(bytes@, start as int);
        }
        while i < bytes.len() && is_ident_byte(bytes[i])
            invariant
                start <= i <= bytes@.len(),
                ident_end(bytes@, i as int) == ident_end(bytes@, start as int),
            decreases bytes@.len() - i,
        {
            i += 1;
        }
        let word = vstd::slice::slice_subrange(bytes, start, i);
        proof {
            assert(seen.push(word@) + words_from(bytes@, i as int) =~= seen + (seq![word@]
                + words_from(bytes@, i as int)));
            assert(seen.push(word@).drop_last() =~= seen);
            reveal(Seq::filter);
            if fits(word@) {
                assert(seen.push(word@).filter(fits) == seen.filter(fits).push(word@));
                assert(seen.filter(fits).push(word@).drop_last() =~= seen.filter(fits));
            }
        }
        if word_completes(word, prefix) && !holds_word(&kept, word) {
            let ghost before = kept@;
            let mut w: Vec<u8> = Vec::new();
            w.extend_from_slice(word);
            assert(w@ =~= word@);
            kept.push(w);
            assert(byte_lists(kept@) =~= byte_lists(before).push(word@));
        }
        proof {
            seen = seen.push(word@);
        }
    }
    assert(seen + words_from(bytes@, i as int) =~= seen);
    kept
}

fn item_of_word(w: &[u8]) -> (r: CompletionItem)
    requires
        forall|i: int| 0 <= i < w@.len() ==> #[trigger] w@[i] < 0x80,
    ensures
        r@ == plain_item(ascii_text(w@)),
{
    let mut t = String::new();
    let mut i: usize = 0;
    while i < w.len()
        invariant
            i <= w@.len(),
            t@ == ascii_text(w@.take(i as int)),
        decreases w@.len() - i,
    {
        t.push(w[i] as char);
        i += 1;
        assert(t@ =~= ascii_text(w@.take(i as int)));
    }
    assert(w@.take(i as int) =~= w@);
    CompletionItem {
        label: t.clone(),
        filter_text: t.clone(),
        insert_text: t.clone(),
        sort_text: t,
        detail: None,
    }
}

/// The distinct words of `bytes` that are longer than `prefix` and start with
/// it, whatever the case of their ASCII letters; sorted, and at most
/// `MAX_BUFFER_WORDS` of them. Nothing completes an empty prefix.
pub fn buffer_word_items(bytes: &[u8], prefix: &str) -> (r: Vec<CompletionItem>)
    ensures
        items_of(r@) == word_items(bytes@, encode_utf8(prefix@)),
{
    let p = prefix.as_bytes();
    let mut out: Vec<CompletionItem> = Vec::new();
    if p.len() == 0 {
        assert(items_of(out@) =~= Seq::<ItemView>::empty());
        return out;
    }
    let words = find_words(bytes, p);
    let ghost mk = |w: Seq<u8>| plain_item(ascii_text(w));
    let mut i: usize = 0;
    while i < words.len()
        invariant
            i <= words@.len(),
            mk == (|w: Seq<u8>| plain_item(ascii_text(w))),
            byte_lists(words@) == matching_words(bytes@, p@),
            items_of(out@) == byte_lists(words@).take(i as int).map_values(mk),
        decreases words@.len() - i,
    {
        let ghost before = out@;
        proof {
            assert(byte_lists(words@)[i as int] == words@[i as int]@);
            lemma_words_are_ascii(bytes@, p@, i as int);
        }
        out.push(item_of_word(words[i].as_slice()));
        assert(items_of(out@) =~= items_of(before).push(out@.last()@));
        assert(byte_lists(words@).take(i + 1).map_values(mk) =~= byte_lists(words@).take(
            i as int,
        ).map_values(mk).push(mk(byte_lists(words@)[i as int])));
        i += 1;
    }
    assert(byte_lists(words@).take(i as int) =~= byte_lists(words@));
    let mut out = sort_items(out);
    let ghost sorted = out@;
    out.truncate(MAX_BUFFER_WORDS);
    assert(items_of(sorted).len() == sorted.len());
    assert(items_of(out@) =~= items_of(sorted).take(
        imin(sorted.len() as int, MAX_BUFFER_WORDS as int),
    ));
    out
}

pub open spec fn all_ident(w: Seq<u8>) -> bool {
    forall|i: int| 0 <= i < w.len() ==> is_ident(#[trigger] w[i])
}

proof fn lemma_run_is_ident(s: Seq<u8>, i: int)
    requires
        0 <= i <= s.len(),
    ensures
        forall|j: int| i <= j < ident_end(s, i) ==> is_ident(#[trigger] s[j]),
    decreases s.len() - i,
{
    if i < s.len() && is_ident(s[i]) {
        lemma_run_is_ident(s, i + 1);
    }
}

proof fn lemma_words_are_ident(s: Seq<u8>, i: int)
    requires
        0 <= i <= s.len(),
    ensures
        forall|k: int| 0 <= k < words_from(s, i).len() ==> all_ident(#[trigger] words_from(s, i)[k]),
    decreases s.len() - i,
{
    if i < s.len() {
        if is_ident(s[i]) {
            lemma_ident_end(s, i);
            lemma_run_is_ident(s, i);
            let e = ident_end(s, i);
            lemma_words_are_ident(s, e);
            let first = s.subrange(i, e);
            assert(all_ident(first)) by {
                assert forall|j: int| 0 <= j < first.len() implies is_ident(#[trigger] first[j]) by {
                    assert(first[j] == s[i + j]);
                }
            }
            assert forall|k: int| 0 <= k < words_from(s, i).len() implies all_ident(
                #[trigger] words_from(s, i)[k],
            ) by {
                if k > 0 {
                    assert(words_from(s, i)[k] == words_from(s, e)[k - 1]);
                }
            }
        } else {
            lemma_words_are_ident(s, i + 1);
            assert(words_from(s, i) == words_from(s, i + 1));
        }
    } else {
        assert(words_from(s, i).len() == 0);
    }
}

proof fn lemma_distinct_members(s: Seq<Seq<u8>>)
    ensures
        forall|k: int|
            0 <= k < distinct(s).len() ==> exists|j: int|
                0 <= j < s.len() && #[trigger] s[j] == #[trigger] distinct(s)[k],
    decreases s.len(),
{
    if s.len() > 0 {
        let t = s.drop_last();
        lemma_distinct_members(t);
        assert forall|k: int| 0 <= k < distinct(s).len() implies exists|j: int|
            0 <= j < s.len() && #[trigger] s[j] == #[trigger] distinct(s)[k] by {
            if k < distinct(t).len() {
                assert(distinct(s)[k] == distinct(t)[k]);
                let j = choose|j: int|
                    0 <= j < t.len() && #[trigger] t[j] == #[trigger] distinct(t)[k];
                assert(s[j] == distinct(s)[k]);
            } else {
                assert(s[s.len() - 1] == distinct(s)[k]);
            }
        }
    }
}

proof fn lemma_words_are_ascii(s: Seq<u8>, prefix: Seq<u8>, k: int)
    requires
        0 <= k < matching_words(s, prefix).len(),
    ensures
        all_ident(matching_words(s, prefix)[k]),
        forall|i: int|
            0 <= i < matching_words(s, prefix)[k].len() ==> #[trigger] matching_words(
                s,
                prefix,
            )[k][i] < 0x80,
{
    let fits = |w: Seq<u8>| completes(w, prefix);
    let ws = words_from(s, 0);
    lemma_distinct_members(ws.filter(fits));
    lemma_words_are_ident(s, 0);
    let j = choose|j: int|
        0 <= j < ws.filter(fits).len() && #[trigger] ws.filter(fits)[j] == #[trigger] distinct(
            ws.filter(fits),
        )[k];
    ws.lemma_filter_contains_rev(fits, ws.filter(fits)[j]);
    let m = choose|m: int| 0 <= m < ws.len() && ws[m] == ws.filter(fits)[j];
    assert(all_ident(words_from(s, 0)[m]));
}

// ---------------------------------------------------------------------------
// What a server offers
// ---------------------------------------------------------------------------

/// A server's answer, sorted.
pub struct CompletionResponse {
    pub items: Vec<CompletionItem>,
    /// Whether the server would answer differently once more is typed.
    pub is_incomplete: bool,
}

pub open spec fn or_text(o: Option<Seq<char>>, fallback: Seq<char>) -> Seq<char> {
    match o {
        Some(t) => t,
        None => fallback,
    }
}

/// The text that an item inserts: of its `textEdit`, else its `insertText`.
pub open spec fn inserted_by(v: JsonView) -> Option<Seq<char>> {
    let edited = match v.field("textEdit"@) {
        Some(e) => e.text_field("newText"@),
        None => None,
    };
    match edited {
        Some(t) => Some(t),
        None => v.text_field("insertText"@),
    }
}

/// The item that a JSON value describes: it needs a label, and the label
/// stands in for what else is missing.
pub open spec fn item_of(v: JsonView) -> Option<ItemView> {
    match v.text_field("label"@) {
        Some(label) => Some(
            ItemView {
                label,
                filter_text: or_text(v.text_field("filterText"@), label),
                insert_text: or_text(inserted_by(v), label),
                sort_text: or_text(v.text_field("sortText"@), label),
                detail: v.text_field("detail"@),
            },
        ),
        None => None,
    }
}

pub open spec fn items_in(a: Seq<JsonView>) -> Seq<ItemView>
    decreases a.len(),
{
    if a.len() == 0 {
        Seq::empty()
    } else {
        let rest = items_in(a.drop_last());
        match item_of(a.last()) {
            Some(i) => rest.push(i),
            None => rest,
        }
    }
}

/// The items of an answer in the server's order: the answer is the list of
/// them or an object that holds the list.
pub open spec fn listed(v: JsonView) -> Seq<ItemView> {
    match v {
        JsonView::Array(a) => items_in(a),
        _ => match v.field("items"@) {
            Some(JsonView::Array(a)) => items_in(a),
            _ => Seq::empty(),
        },
    }
}

pub open spec fn incomplete(v: JsonView) -> bool {
    match v.field("isIncomplete"@) {
        Some(JsonView::Bool(b)) => b,
        _ => false,
    }
}

fn text_or(o: Option<&str>, fallback: &str) -> (r: String)
    ensures
        r@ == (match o {
            Some(t) => t@,
            None => fallback@,
        }),
{
    match o {
        Some(t) => t.to_owned(),
        None => fallback.to_owned(),
    }
}

/// The item that a JSON value describes, if it has a label.
pub fn parse_item(v: &Json) -> (r: Option<CompletionItem>)
    ensures
        r is Some <==> item_of(v@) is Some,
        r matches Some(i) ==> item_of(v@) == Some(i@),
{
    let label = match v.get_str("label") {
        Some(l) => l,
        None => {
            return None;
        },
    };
    let edited: Option<&str> = match v.get("textEdit") {
        Some(e) => e.get_str("newText"),
        None => None,
    };
    let inserted: Option<&str> = match edited {
        Some(t) => Some(t),
        None => v.get_str("insertText"),
    };
    let detail: Option<String> = match v.get_str("detail") {
        Some(d) => Some(d.to_owned()),
        None => None,
    };
    Some(
        CompletionItem {
            label: label.to_owned(),
            filter_text: text_or(v.get_str("filterText"), label),
            insert_text: text_or(inserted, label),
            sort_text: text_or(v.get_str("sortText"), label),
            detail,
        },
    )
}

fn parse_items(a: &Vec<Json>) -> (r: Vec<CompletionItem>)
    ensures
        items_of(r@) == items_in(json_views(a@)),
{
    let mut out: Vec<CompletionItem> = Vec::new();
    let ghost all = json_views(a@);
    proof {
        lemma_json_views(a@);
        assert(items_of(out@) =~= items_in(all.take(0)));
    }
    let mut i: usize = 0;
    while i < a.len()
        invariant
            i <= a@.len() == all.len(),
            forall|k: int| 0 <= k < a@.len() ==> #[trigger] all[k] == a@[k]@,
            items_of(out@) == items_in(all.take(i as int)),
        decreases a@.len() - i,
    {
        let ghost before = out@;
        assert(all.take(i + 1).drop_last() =~= all.take(i as int));
        assert(all.take(i + 1).last() == a@[i as int]@);
        if let Some(item) = parse_item(&a[i]) {
            out.push(item);
            assert(items_of(out@) =~= items_of(before).push(item@));
        }
        i += 1;
    }
    assert(all.take(i as int) =~= all);
    out
}

/// Read a server's answer: nothing, a list of items, or an object with the
/// list and the flag that it is incomplete.
pub fn parse_response(v: &Json) -> (r: CompletionResponse)
    ensures
        items_of(r.items@) == ranked(listed(v@)),
        r.is_incomplete == incomplete(v@),
{
    let items: Vec<CompletionItem> = match v.as_array() {
        Some(a) => parse_items(a),
        None => match v.get("items") {
            Some(list) => match list.as_array() {
                Some(a) => parse_items(a),
                None => Vec::new(),
            },
            None => Vec::new(),
        },
    };
    assert(items_of(items@) =~= listed(v@));
    let is_incomplete: bool = match v.get("isIncomplete") {
        Some(flag) => match flag.as_bool() {
            Some(b) => b,
            None => false,
        },
        None => false,
    };
    CompletionResponse { items: sort_items(items), is_incomplete }
}

// ---------------------------------------------------------------------------
// What of it fits
// ---------------------------------------------------------------------------

/// The indices of the texts that start with `prefix`.
pub open spec fn starting_with(texts: Seq<Seq<char>>, prefix: Seq<char>) -> Seq<int>
    decreases texts.len(),
{
    if texts.len() == 0 {
        Seq::empty()
    } else {
        let rest = starting_with(texts.drop_last(), prefix);
        if has_prefix(texts.last(), prefix) {
            rest.push(texts.len() - 1)
        } else {
            rest
        }
    }
}

pub open spec fn texts_of(v: Seq<String>) -> Seq<Seq<char>> {
    v.map_values(|s: String| s@)
}

/// The indices of the texts that start with `prefix`, in order.
pub fn filter_lowered(texts: &[String], prefix: &str) -> (r: Vec<usize>)
    ensures
        same_numbers(r@, starting_with(texts_of(texts@), prefix@)),
{
    let mut out: Vec<usize> = Vec::new();
    let ghost all = texts_of(texts@);
    let mut i: usize = 0;
    assert(all.take(0) =~= Seq::<Seq<char>>::empty());
    while i < texts.len()
        invariant
            i <= texts@.len(),
            all == texts_of(texts@),
            same_numbers(out@, starting_with(all.take(i as int), prefix@)),
        decreases texts@.len() - i,
    {
        assert(all.take(i + 1).drop_last() =~= all.take(i as int));
        if starts_with(texts[i].as_str(), prefix) {
            out.push(i);
        }
        i += 1;
    }
    assert(all.take(i as int) =~= all);
    out
}

/// The indices of the items whose filter text starts with `prefix`, both in
/// lower case; of all of them when `prefix` is empty.
pub open spec fn fitting(items: Seq<ItemView>, prefix: Seq<char>) -> Seq<int> {
    if prefix.len() == 0 {
        Seq::new(items.len(), |i: int| i)
    } else {
        starting_with(items.map_values(|i: ItemView| lowercase(i.filter_text)), lowercase(prefix))
    }
}

/// The indices of the items whose filter text starts with `prefix`, whatever
/// the case; of all of them when `prefix` is empty.
pub fn filter_items(items: &[CompletionItem], prefix: &str) -> (r: Vec<usize>)
    ensures
        same_numbers(r@, fitting(items_of(items@), prefix@)),
{
    if prefix.is_empty() {
        let mut all: Vec<usize> = Vec::new();
        let mut i: usize = 0;
        while i < items.len()
            invariant
                i <= items@.len(),
                all@.len() == i,
                forall|k: int| 0 <= k < i ==> all@[k] == k,
            decreases items@.len() - i,
        {
            all.push(i);
            i += 1;
        }
        assert(prefix@.len() == 0);
        return all;
    }
    let ghost low = |i: ItemView| lowercase(i.filter_text);
    let mut texts: Vec<String> = Vec::new();
    let mut i: usize = 0;
    while i < items.len()
        invariant
            i <= items@.len(),
            texts@.len() == i,
            forall|k: int| 0 <= k < i ==> #[trigger] texts@[k]@ == lowercase(items@[k].filter_text@),
        decreases items@.len() - i,
    {
        texts.push(to_lowercase(items[i].filter_text.as_str()));
        i += 1;
    }
    assert(texts_of(texts@) =~= items_of(items@).map_values(low));
    let p = to_lowercase(prefix);
    assert(prefix@.len() > 0);
    filter_lowered(texts.as_slice(), p.as_str())
}

// ---------------------------------------------------------------------------
// Laws
// ---------------------------------------------------------------------------

/// The text that an accepted item replaces ends at the cursor and lies in the
/// text.
pub proof fn anchors_stand_before_the_cursor(
    s: Seq<u8>,
    cursor: int,
    chars: Seq<TriggerChar>,
    min: Option<u8>,
)
    requires
        s.len() <= usize::MAX,
    ensures
        decision(s, cursor, chars, min) matches TriggerDecision::Trigger { position, anchor, .. }
            ==> anchor <= position == cursor <= s.len(),
{
}

/// A word asks for completion once: typing on where it just did asks nothing,
/// unless the new byte has a rule of its own.
pub proof fn a_word_asks_once(
    s: Seq<u8>,
    cursor: int,
    b: u8,
    chars: Seq<TriggerChar>,
    min: Option<u8>,
)
    requires
        decision(s, cursor, chars, min) matches TriggerDecision::Trigger { trigger_char, .. }
            && trigger_char is None,
        is_ident(b),
        rule_for(chars, b, 0) is None,
    ensures
        decision(s.insert(cursor, b), cursor + 1, chars, min) is Nothing,
{
    let n = min->0 as int;
    let t = s.insert(cursor, b);
    assert(t[cursor] == b);
    assert(is_ident(s[cursor - n]));
    assert(t[cursor - n] == s[cursor - n]);
    assert(!word_of_length(t, cursor + 1, n)) by {
        if cursor + 1 - n > 0 {
            assert(t[cursor + 1 - n - 1] == s[cursor - n]);
        }
    }
}

/// Every word that is offered from the buffer is longer than the prefix and
/// starts with it, and none is offered twice.
pub proof fn offered_words_complete_the_prefix(s: Seq<u8>, prefix: Seq<u8>)
    ensures
        forall|k: int|
            0 <= k < matching_words(s, prefix).len() ==> completes(
                #[trigger] matching_words(s, prefix)[k],
                prefix,
            ),
        matching_words(s, prefix).no_duplicates(),
{
    let fits = |w: Seq<u8>| completes(w, prefix);
    let ws = words_from(s, 0);
    let f = ws.filter(fits);
    lemma_distinct_members(f);
    lemma_distinct(f);
    assert forall|k: int| 0 <= k < matching_words(s, prefix).len() implies completes(
        #[trigger] matching_words(s, prefix)[k],
        prefix,
    ) by {
        let j = choose|j: int| 0 <= j < f.len() && #[trigger] f[j] == #[trigger] distinct(f)[k];
        ws.lemma_filter_pred(fits, j);
    }
}

proof fn lemma_distinct(s: Seq<Seq<u8>>)
    ensures
        distinct(s).no_duplicates(),
    decreases s.len(),
{
    if s.len() > 0 {
        lemma_distinct(s.drop_last());
    }
}

/// A longer prefix fits nothing that a shorter one does not fit.
pub proof fn typing_on_only_narrows(texts: Seq<Seq<char>>, p: Seq<char>, q: Seq<char>)
    requires
        has_prefix(q, p),
    ensures
        forall|i: int|
            starting_with(texts, q).contains(i) ==> #[trigger] starting_with(texts, p).contains(i),
{
    assert forall|i: int| starting_with(texts, q).contains(i) implies #[trigger] starting_with(
        texts,
        p,
    ).contains(i) by {
        lemma_starting_with(texts, q, i);
        lemma_starting_with(texts, p, i);
        assert(texts[i].take(p.len() as int) =~= texts[i].take(q.len() as int).take(
            p.len() as int,
        ));
    }
}

proof fn lemma_starting_with(texts: Seq<Seq<char>>, p: Seq<char>, i: int)
    ensures
        starting_with(texts, p).contains(i) <==> 0 <= i < texts.len() && has_prefix(texts[i], p),
    decreases texts.len(),
{
    if texts.len() > 0 {
        let rest = starting_with(texts.drop_last(), p);
        lemma_starting_with(texts.drop_last(), p, i);
        let all = starting_with(texts, p);
        if has_prefix(texts.last(), p) {
            assert(all =~= rest.push(texts.len() - 1));
            assert(all.last() == texts.len() - 1);
            if rest.contains(i) {
                let k = choose|k: int| 0 <= k < rest.len() && rest[k] == i;
                assert(all[k] == i);
            }
        }
        if 0 <= i < texts.len() - 1 {
            assert(texts.drop_last()[i] == texts[i]);
        }
    }
}

/// The languages ask for completion in their own ways: Python behind a dot and
/// once a name has two letters, mshell at an `@`, which the completion replaces
/// too, Djot once a word has three letters, the others never.
pub proof fn languages_ask_in_their_own_ways(s: Seq<u8>, cursor: int, lang: Seq<char>)
    requires
        0 < cursor <= s.len() <= usize::MAX,
    ensures
        ({
            let b = s[cursor - 1];
            match rules_of(lang) {
                Some((chars, min)) => {
                    let d = decision(s, cursor, chars, min);
                    &&& lang == "python"@ || lang == "mshell"@ || lang == "djot"@
                    &&& lang == "python"@ && b == '.' as u8 ==> d == (TriggerDecision::Trigger {
                        position: cursor as usize,
                        anchor: cursor as usize,
                        trigger_char: Some('.'),
                    })
                    &&& lang == "mshell"@ && b == '@' as u8 ==> d == (TriggerDecision::Trigger {
                        position: cursor as usize,
                        anchor: (cursor - 1) as usize,
                        trigger_char: Some('@'),
                    })
                    &&& lang == "mshell"@ && b != '@' as u8 ==> d is Nothing
                    &&& lang == "python"@ && b != '.' as u8 ==> (d is Trigger <==> new_word(
                        s,
                        cursor,
                        2,
                    ))
                    &&& lang == "djot"@ ==> (d is Trigger <==> new_word(s, cursor, 3))
                },
                None => lang != "python"@ && lang != "mshell"@ && lang != "djot"@,
            }
        }),
{
    reveal_strlit("python");
    reveal_strlit("mshell");
    reveal_strlit("djot");
    assert("python"@[0] == 'p' && "mshell"@[0] == 'm' && "djot"@[0] == 'd');
    if let Some((chars, min)) = rules_of(lang) {
        reveal_with_fuel(rule_for, 3);
        if min is Some {
            lemma_new_word(s, cursor, min->0 as int);
        }
    }
}

/// Letters, digits and the underscore.
pub open spec fn in_names(b: u8) -> bool {
    'a' as u8 <= b <= 'z' as u8 || 'A' as u8 <= b <= 'Z' as u8 || '0' as u8 <= b <= '9' as u8 || b
        == '_' as u8
}

/// The run of letters, digits and underscores before the cursor has `n` of them
/// and does not begin with a digit.
pub open spec fn new_word(s: Seq<u8>, cursor: int, n: int) -> bool {
    &&& n <= cursor
    &&& forall|i: int| cursor - n <= i < cursor ==> in_names(#[trigger] s[i])
    &&& cursor == n || !in_names(s[cursor - n - 1])
    &&& !('0' as u8 <= s[cursor - n] <= '9' as u8)
}

proof fn lemma_new_word(s: Seq<u8>, cursor: int, n: int)
    requires
        1 <= n,
    ensures
        word_of_length(s, cursor, n) == new_word(s, cursor, n),
{
    if word_of_length(s, cursor, n) {
        assert forall|i: int| cursor - n <= i < cursor implies in_names(#[trigger] s[i]) by {
            assert(is_ident(s[i]));
        }
    }
    if new_word(s, cursor, n) {
        assert forall|i: int| cursor - n <= i < cursor implies is_ident(#[trigger] s[i]) by {
            assert(in_names(s[i]));
        }
    }
}

/// From `a` to before `b` is a whole word.
pub open spec fn whole_word(s: Seq<u8>, a: int, b: int) -> bool {
    &&& 0 <= a < b <= s.len()
    &&& forall|i: int| a <= i < b ==> in_names(#[trigger] s[i])
    &&& a > 0 ==> !in_names(s[a - 1])
    &&& b < s.len() ==> !in_names(s[b])
}

proof fn lemma_whole_word_end(s: Seq<u8>, i: int, b: int)
    requires
        0 <= i <= b <= s.len(),
        forall|j: int| i <= j < b ==> in_names(#[trigger] s[j]),
        b < s.len() ==> !in_names(s[b]),
    ensures
        ident_end(s, i) == b,
    decreases b - i,
{
    if i < b {
        assert(in_names(s[i]));
        lemma_whole_word_end(s, i + 1, b);
    }
}

proof fn lemma_ident_run(s: Seq<u8>, i: int)
    requires
        0 <= i <= s.len(),
    ensures
        i <= ident_end(s, i) <= s.len(),
        forall|j: int| i <= j < ident_end(s, i) ==> in_names(#[trigger] s[j]),
        ident_end(s, i) < s.len() ==> !in_names(s[ident_end(s, i)]),
    decreases s.len() - i,
{
    if i < s.len() && is_ident(s[i]) {
        lemma_ident_run(s, i + 1);
    }
}

proof fn lemma_words_found(s: Seq<u8>, i: int, a: int, b: int)
    requires
        0 <= i <= a,
        whole_word(s, a, b),
        i > 0 ==> i == a || !in_names(s[i - 1]) || !in_names(s[i]),
    ensures
        words_from(s, i).contains(s.subrange(a, b)),
    decreases a - i,
{
    let all = words_from(s, i);
    if i == a {
        assert(in_names(s[a]));
        lemma_whole_word_end(s, a, b);
        assert(all[0] == s.subrange(a, b));
    } else if is_ident(s[i]) {
        lemma_ident_run(s, i);
        let e = ident_end(s, i);
        lemma_ident_end(s, i);
        if e > a {
            assert(in_names(s[a - 1]));
        }
        assert(e <= a);
        assert(e > i);
        lemma_words_found(s, e, a, b);
        let rest = words_from(s, e);
        let k = choose|k: int| 0 <= k < rest.len() && rest[k] == s.subrange(a, b);
        assert(all[k + 1] == rest[k]);
    } else {
        lemma_words_found(s, i + 1, a, b);
    }
}

proof fn lemma_words_whole(s: Seq<u8>, i: int, k: int)
    requires
        0 <= i,
        0 <= k < words_from(s, i).len(),
        i > 0 && i < s.len() ==> !in_names(s[i - 1]) || !in_names(s[i]),
    ensures
        exists|a: int, b: int| #[trigger]
            whole_word(s, a, b) && words_from(s, i)[k] == s.subrange(a, b),
    decreases s.len() - i,
{
    if i < s.len() {
        if is_ident(s[i]) {
            lemma_ident_run(s, i);
            lemma_ident_end(s, i);
            let e = ident_end(s, i);
            if k == 0 {
                assert(whole_word(s, i, e));
            } else {
                lemma_words_whole(s, e, k - 1);
                assert(words_from(s, i)[k] == words_from(s, e)[k - 1]);
            }
        } else {
            lemma_words_whole(s, i + 1, k);
        }
    }
}

/// The words of a text are exactly its whole runs of letters, digits and
/// underscores.
pub proof fn words_are_whole_runs(s: Seq<u8>, w: Seq<u8>)
    ensures
        words_from(s, 0).contains(w) <==> exists|a: int, b: int| #[trigger]
            whole_word(s, a, b) && w == s.subrange(a, b),
{
    let all = words_from(s, 0);
    if all.contains(w) {
        let k = choose|k: int| 0 <= k < all.len() && all[k] == w;
        lemma_words_whole(s, 0, k);
    }
    if exists|a: int, b: int| #[trigger] whole_word(s, a, b) && w == s.subrange(a, b) {
        let (a, b) = choose|a: int, b: int| #[trigger]
            whole_word(s, a, b) && w == s.subrange(a, b);
        lemma_words_found(s, 0, a, b);
    }
}

/// The letters are the same but for their case.
pub open spec fn same_letters(a: u8, b: u8) -> bool {
    ||| a == b
    ||| 'A' as u8 <= a <= 'Z' as u8 && b == a + 32
    ||| 'A' as u8 <= b <= 'Z' as u8 && a == b + 32
}

/// A whole word of the text that is longer than the prefix and starts with it,
/// whatever the case, is offered, and as an item that shows and writes it. No more
/// than two hundred are offered.
pub proof fn words_with_the_prefix_are_offered(s: Seq<u8>, prefix: Seq<u8>, a: int, b: int)
    requires
        prefix.len() > 0,
        whole_word(s, a, b),
        b - a > prefix.len(),
        forall|i: int| 0 <= i < prefix.len() ==> same_letters(#[trigger] prefix[i], s[a + i]),
    ensures
        matching_words(s, prefix).contains(s.subrange(a, b)),
        matching_words(s, prefix).len() <= 200 ==> ({
            let t = s.subrange(a, b).map_values(|x: u8| x as char);
            exists|k: int|
                {
                    &&& 0 <= k < word_items(s, prefix).len()
                    &&& (#[trigger] word_items(s, prefix)[k]).label == t
                    &&& word_items(s, prefix)[k].insert_text == t
                    &&& word_items(s, prefix)[k].filter_text == t
                }
        }),
        word_items(s, prefix).len() <= 200,
{
    let w = s.subrange(a, b);
    lemma_words_found(s, 0, a, b);
    let ws = words_from(s, 0);
    let fits = |x: Seq<u8>| completes(x, prefix);
    let f = ws.filter(fits);
    assert(completes(w, prefix)) by {
        let n = prefix.len() as int;
        assert(lower_bytes(w.take(n)) =~= lower_bytes(prefix)) by {
            assert forall|i: int| 0 <= i < n implies lower_byte(w.take(n)[i]) == lower_byte(
                #[trigger] prefix[i],
            ) by {
                assert(same_letters(prefix[i], s[a + i]));
            }
        }
    }
    let k = choose|k: int| 0 <= k < ws.len() && ws[k] == w;
    ws.lemma_filter_contains_rev(fits, w);
    lemma_distinct_keeps(f, w);
    let m = matching_words(s, prefix);
    let items = m.map_values(|x: Seq<u8>| plain_item(ascii_text(x)));
    let all = ranked(items);
    ranked_is_a_ranked_permutation(items);
    if m.len() <= 200 {
        broadcast use vstd::seq_lib::group_to_multiset_ensures;

        let j = choose|j: int| 0 <= j < m.len() && m[j] == w;
        let it = plain_item(ascii_text(w));
        assert(items[j] == it);
        assert(items.contains(it));
        assert(items.to_multiset().count(it) > 0);
        assert(all.to_multiset().count(it) > 0);
        assert(all.contains(it));
        assert(all.take(all.len() as int) =~= all);
        let x = choose|x: int| 0 <= x < all.len() && all[x] == it;
        assert(word_items(s, prefix)[x] == it);
        assert(ascii_text(w) =~= w.map_values(|x: u8| x as char));
    }
}

proof fn lemma_distinct_keeps(s: Seq<Seq<u8>>, w: Seq<u8>)
    requires
        s.contains(w),
    ensures
        distinct(s).contains(w),
    decreases s.len(),
{
    let k = choose|k: int| 0 <= k < s.len() && s[k] == w;
    let t = s.drop_last();
    let d = distinct(t);
    if k < t.len() {
        assert(t[k] == w);
        lemma_distinct_keeps(t, w);
        let j = choose|j: int| 0 <= j < d.len() && d[j] == w;
        if !d.contains(s.last()) {
            assert(d.push(s.last())[j] == w);
        }
    } else if !d.contains(w) {
        assert(d.push(w)[d.len() as int] == w);
    }
}

/// The items that fit a prefix are exactly those whose filter text starts with it
/// when both are in lower case; they keep their order.
pub proof fn fitting_items_start_with_the_prefix(
    items: Seq<ItemView>,
    prefix: Seq<char>,
    i: int,
)
    requires
        0 <= i < items.len(),
    ensures
        prefix.len() > 0 ==> (fitting(items, prefix).contains(i) <==> {
            let (t, p) = (lowercase(items[i].filter_text), lowercase(prefix));
            p.len() <= t.len() && forall|k: int| 0 <= k < p.len() ==> #[trigger] p[k] == t[k]
        }),
        prefix.len() == 0 ==> fitting(items, prefix).len() == items.len() && fitting(
            items,
            prefix,
        )[i] == i,
        forall|x: int, y: int|
            0 <= x < y < fitting(items, prefix).len() ==> #[trigger] fitting(items, prefix)[x]
                < #[trigger] fitting(items, prefix)[y],
{
    let texts = items.map_values(|i: ItemView| lowercase(i.filter_text));
    let p = lowercase(prefix);
    if prefix.len() > 0 {
        lemma_starting_with(texts, p, i);
        lemma_starting_in_order(texts, p);
        let t = texts[i];
        assert(t == lowercase(items[i].filter_text));
        if has_prefix(t, p) {
            assert forall|k: int| 0 <= k < p.len() implies #[trigger] p[k] == t[k] by {
                assert(t.take(p.len() as int)[k] == p[k]);
            }
        }
        if p.len() <= t.len() && forall|k: int| 0 <= k < p.len() ==> #[trigger] p[k] == t[k] {
            assert(t.take(p.len() as int) =~= p);
        }
    }
}

proof fn lemma_starting_in_order(texts: Seq<Seq<char>>, p: Seq<char>)
    ensures
        forall|x: int, y: int|
            0 <= x < y < starting_with(texts, p).len() ==> #[trigger] starting_with(texts, p)[x]
                < #[trigger] starting_with(texts, p)[y],
        forall|x: int|
            0 <= x < starting_with(texts, p).len() ==> #[trigger] starting_with(texts, p)[x]
                < texts.len(),
    decreases texts.len(),
{
    if texts.len() > 0 {
        lemma_starting_in_order(texts.drop_last(), p);
        let rest = starting_with(texts.drop_last(), p);
        let all = starting_with(texts, p);
        assert forall|x: int, y: int| 0 <= x < y < all.len() implies #[trigger] all[x]
            < #[trigger] all[y] by {
            assert(all[x] == rest[x]);
            if y < rest.len() {
                assert(all[y] == rest[y]);
            }
        }
        assert forall|x: int| 0 <= x < all.len() implies #[trigger] all[x] < texts.len() by {
            if x < rest.len() {
                assert(all[x] == rest[x]);
            }
        }
    }
}

/// An item of a server has a label, and its other texts are the label where the
/// server leaves them out. What an edit writes goes before what is to be inserted.
pub proof fn missing_texts_are_the_label(v: JsonView, label: Seq<char>)
    requires
        v.text_field("label"@) == Some(label),
    ensures
        ({
            let it = item_of(v)->0;
            let edit = v.field("textEdit"@);
            &&& item_of(v) is Some
            &&& it.label == label
            &&& v.text_field("filterText"@) is None ==> it.filter_text == label
            &&& v.text_field("sortText"@) is None ==> it.sort_text == label
            &&& v.text_field("filterText"@) matches Some(t) ==> it.filter_text == t
            &&& v.text_field("sortText"@) matches Some(t) ==> it.sort_text == t
            &&& edit is None && v.text_field("insertText"@) is None ==> it.insert_text == label
            &&& edit is None ==> (v.text_field("insertText"@) matches Some(t) ==> it.insert_text
                == t)
            &&& edit matches Some(e) ==> (e.text_field("newText"@) matches Some(t)
                ==> it.insert_text == t)
            &&& it.detail == v.text_field("detail"@)
        }),
{
}

/// The name that is completed is the run of letters, digits and underscores right
/// before the cursor.
pub proof fn the_name_before_the_cursor_is_a_run(s: Seq<u8>, cursor: int)
    requires
        0 <= cursor <= s.len(),
    ensures
        ({
            let a = ident_start(s, cursor);
            &&& 0 <= a <= cursor
            &&& forall|i: int| a <= i < cursor ==> in_names(#[trigger] s[i])
            &&& a > 0 ==> !in_names(s[a - 1])
        }),
    decreases cursor,
{
    if 0 < cursor && is_ident(s[cursor - 1]) {
        the_name_before_the_cursor_is_a_run(s, cursor - 1);
    }
}

/// A server's items are read in order, from a bare list or from the list in an
/// answer; what has no label is left out.
pub proof fn items_are_read_in_order(a: Seq<JsonView>, v: JsonView)
    ensures
        listed(JsonView::Array(a)) == items_in(a),
        listed(JsonView::Object(seq![("items"@, JsonView::Array(a))])) == items_in(a),
        items_in(Seq::empty()).len() == 0,
        v.text_field("label"@) is None ==> items_in(a.push(v)) == items_in(a),
        item_of(v) matches Some(i) ==> items_in(a.push(v)) == items_in(a).push(i),
{
    assert(a.push(v).drop_last() =~= a);
    crate::json::the_last_field_of_a_name_counts(
        seq![("items"@, JsonView::Array(a))],
        0,
        "items"@,
    );
}

/// Ordered items stand in the order of their sort texts, byte by byte, and where
/// those are alike in the order of their labels.
pub proof fn items_are_ordered_by_their_sort_text(items: Seq<ItemView>, i: int, j: int)
    requires
        0 <= i < j < items.len(),
    ensures
        ({
            let r = ranked(items);
            let (x, y) = (r[i], r[j]);
            &&& !text_less(y.sort_text, x.sort_text)
            &&& x.sort_text == y.sort_text ==> !text_less(y.label, x.label)
        }),
{
    ranked_is_a_ranked_permutation(items);
    let r = ranked(items);
    assert(!r[j].below(&r[i]));
}

}
