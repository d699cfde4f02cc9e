//! Decoding of the byte stream that a terminal sends into key events.
//!
//! Three encodings are understood side by side: plain bytes with control
//! codes, CSI sequences including the kitty keyboard protocol, and the
//! win32-input-mode records of Windows Terminal.
use std::collections::VecDeque;
use vstd::prelude::*;
use vstd::utf8::{
    decode_utf8, encode_scalar, encode_utf8, encode_utf8_decode_utf8, encode_utf8_first_scalar,
    encode_utf8_valid_utf8, is_scalar, length_of_first_scalar, valid_utf8,
};
use crate::strings::text_from_utf8;
use crate::text::{char_len, imax, imin, lemma_first_char, lemma_whole_char, utf8_len};

verus! {

/// A set of modifier keys, one bit each.
#[derive(Debug, Clone, Copy, PartialEq, Eq, Structural)]
pub struct Mods(pub u8);

pub const SHIFT_BIT: u8 = 0x01;

pub const ALT_BIT: u8 = 0x02;

pub const CTRL_BIT: u8 = 0x04;

impl Mods {
    pub fn none() -> (m: Mods)
        ensures
            m == Mods(0),
    {
        Mods(0)
    }

    pub fn shift() -> (m: Mods)
        ensures
            m == Mods(SHIFT_BIT),
    {
        Mods(SHIFT_BIT)
    }

    pub fn alt() -> (m: Mods)
        ensures
            m == Mods(ALT_BIT),
    {
        Mods(ALT_BIT)
    }

    pub fn ctrl() -> (m: Mods)
        ensures
            m == Mods(CTRL_BIT),
    {
        Mods(CTRL_BIT)
    }

    /// All of `other`'s keys are in the set.
    pub open spec fn has(self, other: Mods) -> bool {
        self.0 & other.0 == other.0
    }

    pub open spec fn without_shift(self) -> Mods {
        Mods(self.0 & 0xfe)
    }

    pub open spec fn union(self, other: Mods) -> Mods {
        Mods(self.0 | other.0)
    }

    pub fn contains(self, other: Mods) -> (r: bool)
        ensures
            r == self.has(other),
    {
        (self.0 & other.0) == other.0
    }

    pub fn is_empty(self) -> (r: bool)
        ensures
            r == (self == Mods(0)),
    {
        self.0 == 0
    }

    /// The modifiers that a CSI parameter carries, which is one more than
    /// their bits.
    fn from_csi_param(p: u32) -> (m: Mods)
        ensures
            m == csi_mods(p as int),
    {
        let bits: u32 = if p == 0 { 0 } else { p - 1 };
        assert(bits & 7 == bits % 8) by (bit_vector);
        Mods((bits % 8) as u8)
    }
}

impl std::ops::BitOr for Mods {
    type Output = Mods;

    fn bitor(self, rhs: Mods) -> (r: Mods) {
        Mods(self.0 | rhs.0)
    }
}

impl vstd::std_specs::ops::BitOrSpecImpl for Mods {
    open spec fn obeys_bitor_spec() -> bool {
        true
    }

    open spec fn bitor_req(self, rhs: Mods) -> bool {
        true
    }

    open spec fn bitor_spec(self, rhs: Mods) -> Mods {
        self.union(rhs)
    }
}

#[derive(Debug, Clone, Copy, PartialEq, Eq, Structural)]
pub enum Key {
    Char(char),
    Enter,
    Tab,
    Backspace,
    Esc,
    Up,
    Down,
    Left,
    Right,
    Home,
    End,
    PageUp,
    PageDown,
    Insert,
    Delete,
    F(u8),
}

#[derive(Debug, Clone, Copy, PartialEq, Eq, Structural)]
pub struct KeyEvent {
    pub key: Key,
    pub mods: Mods,
}

impl KeyEvent {
    pub fn plain(key: Key) -> (k: KeyEvent)
        ensures
            k == (KeyEvent { key, mods: Mods(0) }),
    {
        KeyEvent { key, mods: Mods(0) }
    }

    pub fn with(key: Key, mods: Mods) -> (k: KeyEvent)
        ensures
            k == (KeyEvent { key, mods }),
    {
        KeyEvent { key, mods }
    }
}

#[derive(Debug, Clone, Copy, PartialEq, Eq, Structural)]
pub enum Event {
    Key(KeyEvent),
}

// ---------------------------------------------------------------------------
// What the bytes mean
// ---------------------------------------------------------------------------

pub const ESC: u8 = 0x1b;

pub open spec fn plain_key(key: Key) -> KeyEvent {
    KeyEvent { key, mods: Mods(0) }
}

pub open spec fn csi_mods(p: int) -> Mods {
    Mods((imax(p - 1, 0) % 8) as u8)
}

/// A decimal number with one more byte read: digits count, anything else is
/// passed over, and the value stops at the largest `u32`.
pub open spec fn with_digit(n: int, b: u8) -> int {
    if 0x30 <= b <= 0x39 {
        imin(n * 10 + (b - 0x30), u32::MAX as int)
    } else {
        n
    }
}

/// The values of a semicolon-separated parameter string; an empty segment
/// counts as 0.
pub open spec fn params_of(s: Seq<u8>) -> Seq<int>
    decreases s.len(),
{
    if s.len() == 0 {
        seq![0]
    } else {
        let p = params_of(s.drop_last());
        if s.last() == 0x3b {
            p.push(0)
        } else {
            p.update(p.len() - 1, with_digit(p.last(), s.last()))
        }
    }
}

pub open spec fn param(s: Seq<u8>, i: int, default: int) -> int {
    if i < params_of(s).len() { params_of(s)[i] } else { default }
}

pub open spec fn code_point_key(cp: int) -> Key {
    if is_scalar(cp as u32) { Key::Char(cp as u32 as char) } else { Key::Char('?') }
}

/// The key of a `CSI <number> ~` sequence.
pub open spec fn tilde_key(p: int) -> Key {
    if p == 1 || p == 7 {
        Key::Home
    } else if p == 4 || p == 8 {
        Key::End
    } else if p == 2 {
        Key::Insert
    } else if p == 3 {
        Key::Delete
    } else if p == 5 {
        Key::PageUp
    } else if p == 6 {
        Key::PageDown
    } else if 11 <= p <= 15 {
        Key::F((p - 10) as u8)
    } else if 17 <= p <= 21 {
        Key::F((p - 11) as u8)
    } else if p == 23 || p == 24 {
        Key::F((p - 12) as u8)
    } else {
        Key::Char('?')
    }
}

pub open spec fn csi_key(params: Seq<u8>, final_byte: u8) -> Key {
    let p = param(params, 0, 1);
    if final_byte == 0x41 {
        Key::Up
    } else if final_byte == 0x42 {
        Key::Down
    } else if final_byte == 0x43 {
        Key::Right
    } else if final_byte == 0x44 {
        Key::Left
    } else if final_byte == 0x48 {
        Key::Home
    } else if final_byte == 0x46 {
        Key::End
    } else if final_byte == 0x7e {
        tilde_key(p)
    } else if final_byte == 0x75 {
        if p == 13 {
            Key::Enter
        } else if p == 9 {
            Key::Tab
        } else if p == 127 {
            Key::Backspace
        } else if p == 27 {
            Key::Esc
        } else {
            code_point_key(p)
        }
    } else {
        Key::Char('?')
    }
}

pub open spec fn csi_event(params: Seq<u8>, final_byte: u8) -> KeyEvent {
    KeyEvent { key: csi_key(params, final_byte), mods: csi_mods(param(params, 1, 1)) }
}

/// A Unicode control character.
pub open spec fn is_control(c: int) -> bool {
    c < 0x20 || 0x7f <= c < 0xa0
}

/// Modifiers from the control-key state of a win32 record: bits 0 and 1 are
/// the Alt keys, bits 2 and 3 the Ctrl keys and bit 4 is Shift.
pub open spec fn win32_mods(cs: int) -> Mods {
    Mods(
        ((if cs % 32 >= 16 { 1int } else { 0int }) + (if cs % 4 != 0 { 2int } else { 0int }) + (if cs
            % 16 >= 4 { 4int } else { 0int })) as u8,
    )
}

/// Virtual-key codes that stand for a key of their own.
pub open spec fn win32_named(vk: int) -> Option<Key> {
    if vk == 0x08 {
        Some(Key::Backspace)
    } else if vk == 0x09 {
        Some(Key::Tab)
    } else if vk == 0x0d {
        Some(Key::Enter)
    } else if vk == 0x1b {
        Some(Key::Esc)
    } else if vk == 0x20 {
        Some(Key::Char(' '))
    } else if vk == 0x21 {
        Some(Key::PageUp)
    } else if vk == 0x22 {
        Some(Key::PageDown)
    } else if vk == 0x23 {
        Some(Key::End)
    } else if vk == 0x24 {
        Some(Key::Home)
    } else if vk == 0x25 {
        Some(Key::Left)
    } else if vk == 0x26 {
        Some(Key::Up)
    } else if vk == 0x27 {
        Some(Key::Right)
    } else if vk == 0x28 {
        Some(Key::Down)
    } else if vk == 0x2d {
        Some(Key::Insert)
    } else if vk == 0x2e {
        Some(Key::Delete)
    } else if 0x70 <= vk <= 0x7b {
        Some(Key::F((vk - 0x6f) as u8))
    } else if 0x41 <= vk <= 0x5a {
        Some(Key::Char((vk + 0x20) as u8 as char))
    } else {
        None
    }
}

/// Modifier and lock keys pressed on their own.
pub open spec fn win32_silent(vk: int) -> bool {
    0x10 <= vk <= 0x12 || vk == 0x14 || vk == 0x90 || vk == 0x91 || 0xa0 <= vk <= 0xa5
}

/// The press that a win32 record reports; `None` for a key release, a lone
/// modifier and a control character. Characters that have no key of their own
/// come as typed, with Shift already accounted for.
pub open spec fn win32_event(params: Seq<u8>) -> Option<KeyEvent> {
    let vk = param(params, 0, 0);
    let uc = param(params, 2, 0);
    let mods = win32_mods(param(params, 4, 0));
    if param(params, 3, 1) == 0 {
        None
    } else if win32_named(vk) is Some {
        Some(KeyEvent { key: win32_named(vk).unwrap(), mods })
    } else if win32_silent(vk) || !is_scalar(uc as u32) || is_control(uc) {
        None
    } else {
        Some(KeyEvent { key: Key::Char(uc as u32 as char), mods: mods.without_shift() })
    }
}

pub open spec fn win32_repeat(params: Seq<u8>) -> int {
    imax(param(params, 5, 1), 1)
}

pub open spec fn ss3_key(b: u8) -> Key {
    if 0x50 <= b <= 0x53 {
        Key::F((b - 0x4f) as u8)
    } else if b == 0x48 {
        Key::Home
    } else if b == 0x46 {
        Key::End
    } else {
        Key::Esc
    }
}

/// What stands at the front of the input.
pub enum Token {
    /// Not enough bytes to tell.
    Incomplete,
    /// A sequence that reports nothing.
    Ignored { used: int },
    /// A key pressed `repeat` times.
    Press { used: int, event: KeyEvent, repeat: int },
}

/// Offset of the byte that ends a CSI sequence, from `i` on.
pub open spec fn csi_end(s: Seq<u8>, i: int) -> int
    decreases s.len() - i,
{
    if i >= s.len() {
        s.len() as int
    } else if 0x40 <= s[i] <= 0x7e {
        i
    } else {
        csi_end(s, i + 1)
    }
}

pub open spec fn csi_token(s: Seq<u8>) -> Token {
    let end = csi_end(s, 2);
    if end >= s.len() {
        Token::Incomplete
    } else {
        let params = s.subrange(2, end);
        if s[end] == 0x5f {
            match win32_event(params) {
                None => Token::Ignored { used: end + 1 },
                Some(event) => Token::Press {
                    used: end + 1,
                    event,
                    repeat: win32_repeat(params),
                },
            }
        } else {
            Token::Press { used: end + 1, event: csi_event(params, s[end]), repeat: 1 }
        }
    }
}

/// The character at the front of `s`; the replacement character when its bytes
/// are not UTF-8.
pub open spec fn char_token(s: Seq<u8>) -> Token {
    let n = char_len(s[0]);
    if s.len() < n {
        Token::Incomplete
    } else {
        let c = if valid_utf8(s.take(n)) { decode_utf8(s.take(n))[0] } else { '\u{fffd}' };
        Token::Press { used: n, event: plain_key(Key::Char(c)), repeat: 1 }
    }
}

pub open spec fn escape_token(s: Seq<u8>) -> Token {
    if s.len() < 2 {
        Token::Incomplete
    } else if s[1] == 0x5b {
        csi_token(s)
    } else if s[1] == 0x4f {
        if s.len() < 3 {
            Token::Incomplete
        } else {
            Token::Press { used: 3, event: plain_key(ss3_key(s[2])), repeat: 1 }
        }
    } else if 0x21 <= s[1] <= 0x7e {
        Token::Press {
            used: 2,
            event: KeyEvent { key: Key::Char(s[1] as char), mods: Mods(ALT_BIT) },
            repeat: 1,
        }
    } else {
        Token::Press { used: 1, event: plain_key(Key::Esc), repeat: 1 }
    }
}

pub open spec fn token_of(s: Seq<u8>) -> Token {
    if s.len() == 0 {
        Token::Incomplete
    } else if s[0] == ESC {
        escape_token(s)
    } else if s[0] == 0x7f {
        Token::Press { used: 1, event: plain_key(Key::Backspace), repeat: 1 }
    } else if s[0] == 0x0d || s[0] == 0x0a {
        Token::Press { used: 1, event: plain_key(Key::Enter), repeat: 1 }
    } else if s[0] == 0x09 {
        Token::Press { used: 1, event: plain_key(Key::Tab), repeat: 1 }
    } else if s[0] < 0x20 {
        Token::Press {
            used: 1,
            event: KeyEvent {
                key: Key::Char(if s[0] == 0 { ' ' } else { (s[0] + 0x60) as u8 as char }),
                mods: Mods(CTRL_BIT),
            },
            repeat: 1,
        }
    } else {
        char_token(s)
    }
}

/// Shift with a lower-case ASCII letter is the upper-case letter without
/// Shift, however the terminal reported it.
pub open spec fn normalized(k: KeyEvent) -> KeyEvent {
    match k.key {
        Key::Char(c) => if k.mods.has(Mods(SHIFT_BIT)) && 'a' <= c <= 'z' {
            KeyEvent {
                key: Key::Char((c as u8 - 0x20) as u8 as char),
                mods: k.mods.without_shift(),
            }
        } else {
            k
        },
        _ => k,
    }
}

/// The state of a parser: bytes not yet decoded, and presses that a repeat
/// count has still to give out.
#[verifier::ext_equal]
pub struct ParserView {
    pub buf: Seq<u8>,
    pub pending: Seq<KeyEvent>,
}

pub open spec fn repeated(k: KeyEvent, n: int) -> Seq<KeyEvent> {
    Seq::new(n as nat, |i: int| k)
}

impl ParserView {
    /// The next key, if there is one, and the state after it.
    pub open spec fn step(self) -> (Option<KeyEvent>, ParserView)
        decreases self.buf.len(),
    {
        if self.pending.len() > 0 {
            (
                Some(normalized(self.pending[0])),
                ParserView { buf: self.buf, pending: self.pending.skip(1) },
            )
        } else {
            match token_of(self.buf) {
                Token::Incomplete => (None, self),
                Token::Ignored { used } => {
                    proof {
                        lemma_token_used(self.buf);
                    }
                    ParserView { buf: self.buf.skip(used), pending: self.pending }.step()
                },
                Token::Press { used, event, repeat } => (
                    Some(normalized(event)),
                    ParserView { buf: self.buf.skip(used), pending: repeated(event, repeat - 1) },
                ),
            }
        }
    }
}

proof fn lemma_csi_end(s: Seq<u8>, i: int)
    requires
        0 <= i,
    ensures
        i <= s.len() ==> i <= csi_end(s, i) <= s.len(),
        csi_end(s, i) < s.len() ==> 0x40 <= s[csi_end(s, i)] <= 0x7e,
    decreases s.len() - i,
{
    if i < s.len() && !(0x40 <= s[i] <= 0x7e) {
        lemma_csi_end(s, i + 1);
    }
}

pub proof fn lemma_token_used(s: Seq<u8>)
    ensures
        token_of(s) matches Token::Ignored { used } ==> 0 < used <= s.len(),
        token_of(s) matches Token::Press { used, event, repeat } ==> 0 < used <= s.len() && repeat
            >= 1,
{
    lemma_csi_end(s, 2);
}

// ---------------------------------------------------------------------------
// The parser
// ---------------------------------------------------------------------------

pub struct Parser {
    buf: VecDeque<u8>,
    pending: VecDeque<Event>,
}

pub open spec fn event_key(e: Event) -> KeyEvent {
    match e {
        Event::Key(k) => k,
    }
}

impl View for Parser {
    type V = ParserView;

    closed spec fn view(&self) -> ParserView {
        ParserView { buf: self.buf@, pending: self.pending@.map_values(|e: Event| event_key(e)) }
    }
}

fn normalize(k: KeyEvent) -> (r: KeyEvent)
    ensures
        r == normalized(k),
{
    if k.mods.contains(Mods(SHIFT_BIT)) {
        if let Key::Char(c) = k.key {
            if 'a' <= c && c <= 'z' {
                return KeyEvent {
                    key: Key::Char((c as u8 - 0x20) as char),
                    mods: Mods(k.mods.0 & 0xfe),
                };
            }
        }
    }
    k
}

/// Decimal values of a semicolon-separated parameter string.
fn parse_params(params: &[u8]) -> (r: Vec<u32>)
    ensures
        r@.len() == params_of(params@).len(),
        r@.len() > 0,
        forall|i: int| 0 <= i < r@.len() ==> #[trigger] r@[i] == params_of(params@)[i],
{
    let mut r: Vec<u32> = Vec::new();
    r.push(0);
    let mut i: usize = 0;
    assert(params@.take(0) =~= Seq::<u8>::empty());
    while i < params.len()
        invariant
            i <= params@.len(),
            r@.len() == params_of(params@.take(i as int)).len(),
            r@.len() > 0,
            forall|k: int|
                0 <= k < r@.len() ==> #[trigger] r@[k] == params_of(params@.take(i as int))[k],
        decreases params@.len() - i,
    {
        let b: u8 = params[i];
        proof {
            assert(params@.take(i + 1).drop_last() =~= params@.take(i as int));
            assert(params@.take(i + 1).last() == b);
        }
        if b == 0x3b {
            r.push(0);
        } else if 0x30 <= b && b <= 0x39 {
            let last: usize = r.len() - 1;
            let n: u64 = r[last] as u64 * 10 + (b - 0x30) as u64;
            r[last] = if n > u32::MAX as u64 { u32::MAX } else { n as u32 };
        }
        i += 1;
    }
    assert(params@.take(i as int) =~= params@);
    r
}

fn param_or(parts: &Vec<u32>, i: usize, default: u32) -> (r: u32)
    ensures
        r == (if i < parts@.len() { parts@[i as int] } else { default }),
{
    if i < parts.len() {
        parts[i]
    } else {
        default
    }
}

fn key_of_tilde(p: u32) -> (k: Key)
    ensures
        k == tilde_key(p as int),
{
    match p {
        1 | 7 => Key::Home,
        4 | 8 => Key::End,
        2 => Key::Insert,
        3 => Key::Delete,
        5 => Key::PageUp,
        6 => Key::PageDown,
        11..=15 => Key::F((p - 10) as u8),
        17..=21 => Key::F((p - 11) as u8),
        23 | 24 => Key::F((p - 12) as u8),
        _ => Key::Char('?'),
    }
}

fn decode_csi(params: &[u8], final_byte: u8) -> (k: KeyEvent)
    ensures
        k == csi_event(params@, final_byte),
{
    let parts = parse_params(params);
    let p1: u32 = param_or(&parts, 0, 1);
    let p2: u32 = param_or(&parts, 1, 1);
    let mods = Mods::from_csi_param(p2);
    let key = match final_byte {
        0x41 => Key::Up,
        0x42 => Key::Down,
        0x43 => Key::Right,
        0x44 => Key::Left,
        0x48 => Key::Home,
        0x46 => Key::End,
        0x7e => key_of_tilde(p1),
        0x75 => match p1 {
            13 => Key::Enter,
            9 => Key::Tab,
            127 => Key::Backspace,
            27 => Key::Esc,
            _ => match char::from_u32(p1) {
                Some(c) => Key::Char(c),
                None => Key::Char('?'),
            },
        },
        _ => Key::Char('?'),
    };
    KeyEvent { key, mods }
}

fn key_of_vk(vk: u32) -> (k: Option<Key>)
    ensures
        k == win32_named(vk as int),
{
    match vk {
        0x08 => Some(Key::Backspace),
        0x09 => Some(Key::Tab),
        0x0d => Some(Key::Enter),
        0x1b => Some(Key::Esc),
        0x20 => Some(Key::Char(' ')),
        0x21 => Some(Key::PageUp),
        0x22 => Some(Key::PageDown),
        0x23 => Some(Key::End),
        0x24 => Some(Key::Home),
        0x25 => Some(Key::Left),
        0x26 => Some(Key::Up),
        0x27 => Some(Key::Right),
        0x28 => Some(Key::Down),
        0x2d => Some(Key::Insert),
        0x2e => Some(Key::Delete),
        0x70..=0x7b => Some(Key::F((vk - 0x6f) as u8)),
        0x41..=0x5a => Some(Key::Char((vk as u8 + 0x20) as char)),
        _ => None,
    }
}

fn mods_of_win32(cs: u32) -> (m: Mods)
    ensures
        m == win32_mods(cs as int),
{
    assert((cs & 0x0c != 0) == (cs % 16 >= 4)) by (bit_vector);
    assert((cs & 0x03 != 0) == (cs % 4 != 0)) by (bit_vector);
    assert((cs & 0x10 != 0) == (cs % 32 >= 16)) by (bit_vector);
    let mut bits: u8 = 0;
    if cs & 0x0c != 0 {
        bits += CTRL_BIT;
    }
    if cs & 0x03 != 0 {
        bits += ALT_BIT;
    }
    if cs & 0x10 != 0 {
        bits += SHIFT_BIT;
    }
    Mods(bits)
}

/// The press that a win32-input-mode record reports, and how often.
fn decode_win32(params: &[u8]) -> (r: Option<(KeyEvent, u32)>)
    ensures
        match r {
            None => win32_event(params@) is None,
            Some((k, n)) => win32_event(params@) == Some(k) && n == win32_repeat(params@),
        },
{
    let parts = parse_params(params);
    let vk: u32 = param_or(&parts, 0, 0);
    let uc: u32 = param_or(&parts, 2, 0);
    let down: u32 = param_or(&parts, 3, 1);
    let cs: u32 = param_or(&parts, 4, 0);
    let count: u32 = param_or(&parts, 5, 1);
    let repeat: u32 = if count > 1 { count } else { 1 };
    if down == 0 {
        return None;
    }
    let mods = mods_of_win32(cs);
    match key_of_vk(vk) {
        Some(key) => Some((KeyEvent { key, mods }, repeat)),
        None => match vk {
            0x10..=0x12 | 0x14 | 0x90 | 0x91 | 0xa0..=0xa5 => None,
            _ => match char::from_u32(uc) {
                None => None,
                Some(c) => {
                    if uc < 0x20 || (0x7f <= uc && uc < 0xa0) {
                        None
                    } else {
                        Some((KeyEvent { key: Key::Char(c), mods: Mods(mods.0 & 0xfe) }, repeat))
                    }
                },
            },
        },
    }
}

/// Take `n` bytes off the front of the input.
fn drop_bytes(buf: &mut VecDeque<u8>, n: usize)
    requires
        n <= old(buf)@.len(),
    ensures
        final(buf)@ == old(buf)@.skip(n as int),
{
    let ghost all = buf@;
    let mut k: usize = 0;
    assert(all.skip(0) =~= all);
    while k < n
        invariant
            k <= n <= all.len(),
            buf@ == all.skip(k as int),
        decreases n - k,
    {
        let _ = buf.pop_front();
        assert(buf@ =~= all.skip(k + 1));
        k += 1;
    }
}

fn copy_bytes(buf: &VecDeque<u8>, from: usize, to: usize) -> (r: Vec<u8>)
    requires
        from <= to <= buf@.len(),
    ensures
        r@ == buf@.subrange(from as int, to as int),
{
    let mut r: Vec<u8> = Vec::new();
    let mut k: usize = from;
    while k < to
        invariant
            from <= k <= to <= buf@.len(),
            r@ == buf@.subrange(from as int, k as int),
        decreases to - k,
    {
        r.push(buf[k]);
        assert(r@ =~= buf@.subrange(from as int, k + 1));
        k += 1;
    }
    r
}

/// Queue the presses of a repeat count behind the first one.
fn push_presses(pending: &mut VecDeque<Event>, k: KeyEvent, repeat: u32)
    requires
        old(pending)@.len() == 0,
        repeat >= 1,
    ensures
        final(pending)@.len() == repeat - 1,
        forall|i: int| 0 <= i < repeat - 1 ==> #[trigger] final(pending)@[i] == Event::Key(k),
{
    let mut n: u32 = 1;
    while n < repeat
        invariant
            1 <= n <= repeat,
            pending@.len() == n - 1,
            forall|i: int| 0 <= i < n - 1 ==> #[trigger] pending@[i] == Event::Key(k),
        decreases repeat - n,
    {
        pending.push_back(Event::Key(k));
        n += 1;
    }
}

/// The outcome of looking at the front of the input.
enum Front {
    Incomplete,
    Ignored,
    Press(KeyEvent, u32),
}

impl Parser {
    pub fn new() -> (p: Parser)
        ensures
            p@ == (ParserView { buf: Seq::empty(), pending: Seq::empty() }),
    {
        let p = Parser { buf: VecDeque::new(), pending: VecDeque::new() };
        assert(p@.pending =~= Seq::empty());
        p
    }

    /// Append input.
    pub fn feed(&mut self, bytes: &[u8])
        ensures
            final(self)@ == (ParserView {
                buf: old(self)@.buf + bytes@,
                pending: old(self)@.pending,
            }),
    {
        let ghost all = self.buf@;
        let mut i: usize = 0;
        assert(all + bytes@.take(0) =~= all);
        while i < bytes.len()
            invariant
                i <= bytes@.len(),
                self.buf@ == all + bytes@.take(i as int),
                self.pending@ == old(self).pending@,
            decreases bytes@.len() - i,
        {
            self.buf.push_back(bytes[i]);
            assert(self.buf@ =~= all + bytes@.take(i + 1));
            i += 1;
        }
        assert(bytes@.take(i as int) =~= bytes@);
    }

    /// Settle a lone escape byte as the Escape key, once no more input is to
    /// be expected.
    pub fn flush(&mut self) -> (r: Option<Event>)
        ensures
            old(self)@.buf == seq![ESC] ==> r == Some(Event::Key(plain_key(Key::Esc))) && final(self)@ == (ParserView { buf: Seq::empty(), pending: old(self)@.pending }),
            old(self)@.buf != seq![ESC] ==> r is None && final(self)@ == old(self)@,
    {
        if self.buf.len() == 1 && self.buf[0] == ESC {
            assert(self.buf@ =~= seq![ESC]);
            let _ = self.buf.pop_front();
            assert(self.buf@ =~= Seq::empty());
            return Some(Event::Key(KeyEvent::plain(Key::Esc)));
        }
        None
    }

    /// The next key event, or `None` when the input is used up or ends in the
    /// middle of a sequence.
    pub fn next_event(&mut self) -> (r: Option<Event>)
        ensures
            final(self)@ == old(self)@.step().1,
            r == (match old(self)@.step().0 {
                Some(k) => Some(Event::Key(k)),
                None => None,
            }),
    {
        if self.pending.len() > 0 {
            match self.pending.pop_front() {
                Some(Event::Key(k)) => {
                    assert(self@.pending =~= old(self)@.pending.skip(1));
                    return Some(Event::Key(normalize(k)));
                },
                None => {
                    return None;
                },
            }
        }
        assert(self@.pending =~= Seq::empty());
        loop
            invariant
                self.pending@.len() == 0,
                self@.step() == old(self)@.step(),
            decreases self.buf@.len(),
        {
            let ghost before = self@;
            proof {
                lemma_token_used(before.buf);
                assert(before.pending.len() == 0);
            }
            match self.next_front() {
                Front::Incomplete => {
                    return None;
                },
                Front::Ignored => {},
                Front::Press(k, repeat) => {
                    push_presses(&mut self.pending, k, repeat);
                    assert(self@.pending =~= repeated(k, repeat - 1));
                    return Some(Event::Key(normalize(k)));
                },
            }
        }
    }

    /// Decode and consume what stands at the front of the input.
    fn next_front(&mut self) -> (r: Front)
        ensures
            final(self).pending@ == old(self).pending@,
            match token_of(old(self).buf@) {
                Token::Incomplete => r is Incomplete && final(self).buf@ == old(self).buf@,
                Token::Ignored { used } => r is Ignored && final(self).buf@ == old(self).buf@.skip(used),
                Token::Press { used, event, repeat } => r is Press && r->Press_0 == event
                    && r->Press_1 == repeat && final(self).buf@ == old(self).buf@.skip(used),
            },
    {
        if self.buf.len() == 0 {
            return Front::Incomplete;
        }
        let first: u8 = self.buf[0];
        if first == ESC {
            return self.parse_escape();
        }
        let event = match first {
            0x7f => KeyEvent::plain(Key::Backspace),
            0x0d | 0x0a => KeyEvent::plain(Key::Enter),
            0x09 => KeyEvent::plain(Key::Tab),
            _ => {
                if first >= 0x20 {
                    return self.parse_char();
                }
                let letter = if first == 0 { ' ' } else { (first + 0x60) as char };
                KeyEvent { key: Key::Char(letter), mods: Mods(CTRL_BIT) }
            },
        };
        drop_bytes(&mut self.buf, 1);
        Front::Press(event, 1)
    }

    fn parse_char(&mut self) -> (r: Front)
        requires
            old(self).buf@.len() > 0,
        ensures
            final(self).pending@ == old(self).pending@,
            match char_token(old(self).buf@) {
                Token::Press { used, event, repeat } => r is Press && r->Press_0 == event
                    && r->Press_1 == repeat && final(self).buf@ == old(self).buf@.skip(used),
                _ => r is Incomplete && final(self).buf@ == old(self).buf@,
            },
    {
        let needed: usize = utf8_len(self.buf[0]);
        if self.buf.len() < needed {
            return Front::Incomplete;
        }
        let bytes = copy_bytes(&self.buf, 0, needed);
        assert(bytes@ =~= self.buf@.take(needed as int));
        let c = match text_from_utf8(bytes.as_slice()) {
            Some(s) => s.as_str().get_char(0),
            None => '\u{fffd}',
        };
        drop_bytes(&mut self.buf, needed);
        Front::Press(KeyEvent::plain(Key::Char(c)), 1)
    }

    fn parse_escape(&mut self) -> (r: Front)
        requires
            old(self).buf@.len() > 0,
        ensures
            final(self).pending@ == old(self).pending@,
            match escape_token(old(self).buf@) {
                Token::Incomplete => r is Incomplete && final(self).buf@ == old(self).buf@,
                Token::Ignored { used } => r is Ignored && final(self).buf@ == old(self).buf@.skip(used),
                Token::Press { used, event, repeat } => r is Press && r->Press_0 == event
                    && r->Press_1 == repeat && final(self).buf@ == old(self).buf@.skip(used),
            },
    {
        if self.buf.len() < 2 {
            return Front::Incomplete;
        }
        let second: u8 = self.buf[1];
        if second == 0x5b {
            return self.parse_csi();
        }
        if second == 0x4f {
            return self.parse_ss3();
        }
        if 0x21 <= second && second <= 0x7e {
            drop_bytes(&mut self.buf, 2);
            return Front::Press(
                KeyEvent { key: Key::Char(second as char), mods: Mods(ALT_BIT) },
                1,
            );
        }
        drop_bytes(&mut self.buf, 1);
        Front::Press(KeyEvent::plain(Key::Esc), 1)
    }

    fn parse_csi(&mut self) -> (r: Front)
        requires
            old(self).buf@.len() >= 2,
        ensures
            final(self).pending@ == old(self).pending@,
            match csi_token(old(self).buf@) {
                Token::Incomplete => r is Incomplete && final(self).buf@ == old(self).buf@,
                Token::Ignored { used } => r is Ignored && final(self).buf@ == old(self).buf@.skip(used),
                Token::Press { used, event, repeat } => r is Press && r->Press_0 == event
                    && r->Press_1 == repeat && final(self).buf@ == old(self).buf@.skip(used),
            },
    {
        let mut end: usize = 2;
        loop
            invariant
                2 <= end <= self.buf@.len(),
                self.buf@ == old(self).buf@,
                self.pending@ == old(self).pending@,
                csi_end(self.buf@, end as int) == csi_end(self.buf@, 2),
            ensures
                end < self.buf@.len(),
                self.buf@ == old(self).buf@,
                self.pending@ == old(self).pending@,
                end == csi_end(self.buf@, 2),
                2 <= end,
            decreases self.buf@.len() - end,
        {
            if end >= self.buf.len() {
                return Front::Incomplete;
            }
            let b: u8 = self.buf[end];
            if 0x40 <= b && b <= 0x7e {
                break;
            }
            end += 1;
        }
        let params = copy_bytes(&self.buf, 2, end);
        let final_byte: u8 = self.buf[end];
        assert(end < self.buf.len());
        drop_bytes(&mut self.buf, end + 1);
        if final_byte == 0x5f {
            return match decode_win32(params.as_slice()) {
                Some((k, n)) => Front::Press(k, n),
                None => Front::Ignored,
            };
        }
        Front::Press(decode_csi(params.as_slice(), final_byte), 1)
    }

    fn parse_ss3(&mut self) -> (r: Front)
        requires
            old(self).buf@.len() >= 2,
        ensures
            final(self).pending@ == old(self).pending@,
            old(self).buf@.len() < 3 ==> r is Incomplete && final(self).buf@ == old(self).buf@,
            old(self).buf@.len() >= 3 ==> r is Press && r->Press_0 == plain_key(
                ss3_key(old(self).buf@[2]),
            ) && r->Press_1 == 1 && final(self).buf@ == old(self).buf@.skip(3),
    {
        if self.buf.len() < 3 {
            return Front::Incomplete;
        }
        let c: u8 = self.buf[2];
        drop_bytes(&mut self.buf, 3);
        let key = match c {
            0x50..=0x53 => Key::F(c - 0x4f),
            0x48 => Key::Home,
            0x46 => Key::End,
            _ => Key::Esc,
        };
        Front::Press(KeyEvent::plain(key), 1)
    }
}

// ---------------------------------------------------------------------------
// Laws
// ---------------------------------------------------------------------------

proof fn lemma_csi_end_extends(a: Seq<u8>, b: Seq<u8>, i: int)
    requires
        0 <= i,
        csi_end(a, i) < a.len(),
    ensures
        csi_end(a + b, i) == csi_end(a, i),
    decreases a.len() - i,
{
    if i < a.len() && !(0x40 <= a[i] <= 0x7e) {
        lemma_csi_end_extends(a, b, i + 1);
    }
}

/// What has been recognised stays recognised: more input does not change how
/// a complete sequence at the front is read.
pub proof fn more_input_changes_nothing_decoded(a: Seq<u8>, b: Seq<u8>)
    requires
        !(token_of(a) is Incomplete),
    ensures
        token_of(a + b) == token_of(a),
{
    if a[0] == ESC && a.len() >= 2 && a[1] == 0x5b {
        lemma_csi_end(a, 2);
        lemma_csi_end_extends(a, b, 2);
        let end = csi_end(a, 2);
        assert((a + b).subrange(2, end) =~= a.subrange(2, end));
    } else if a[0] != ESC {
        let n = char_len(a[0]);
        if n <= a.len() {
            assert((a + b).take(n) =~= a.take(n));
        }
    }
}

/// Every key that is in `s`, and the bytes at its end that are still waiting
/// for more.
pub open spec fn all_keys(s: Seq<u8>) -> (Seq<KeyEvent>, Seq<u8>)
    decreases s.len(),
{
    match token_of(s) {
        Token::Incomplete => (Seq::empty(), s),
        Token::Ignored { used } => {
            proof {
                lemma_token_used(s);
            }
            all_keys(s.skip(used))
        },
        Token::Press { used, event, repeat } => {
            proof {
                lemma_token_used(s);
            }
            let rest = all_keys(s.skip(used));
            (repeated(normalized(event), repeat) + rest.0, rest.1)
        },
    }
}

/// Keys do not depend on how the input was cut into reads: reading `a`, then
/// what was left over with `b` behind it, gives what reading all at once
/// gives.
pub proof fn keys_do_not_depend_on_read_boundaries(a: Seq<u8>, b: Seq<u8>)
    ensures
        all_keys(a + b).0 == all_keys(a).0 + all_keys(all_keys(a).1 + b).0,
        all_keys(a + b).1 == all_keys(all_keys(a).1 + b).1,
    decreases a.len(),
{
    lemma_token_used(a);
    match token_of(a) {
        Token::Incomplete => {
            assert(all_keys(a).0 + all_keys(a + b).0 =~= all_keys(a + b).0);
        },
        Token::Ignored { used } => {
            more_input_changes_nothing_decoded(a, b);
            assert((a + b).skip(used) =~= a.skip(used) + b);
            keys_do_not_depend_on_read_boundaries(a.skip(used), b);
        },
        Token::Press { used, event, repeat } => {
            more_input_changes_nothing_decoded(a, b);
            assert((a + b).skip(used) =~= a.skip(used) + b);
            keys_do_not_depend_on_read_boundaries(a.skip(used), b);
            let head = repeated(normalized(event), repeat);
            let mid = all_keys(a.skip(used)).0;
            let tail = all_keys(all_keys(a).1 + b).0;
            assert(head + (mid + tail) =~= head + mid + tail);
        },
    }
}

/// Every key that a parser will hand out if it gets no more input.
pub open spec fn remaining_keys(v: ParserView) -> Seq<KeyEvent> {
    v.pending.map_values(|k: KeyEvent| normalized(k)) + all_keys(v.buf).0
}

/// Each call hands out the first of the remaining keys and keeps the others;
/// it hands out nothing only when there are none.
pub proof fn events_come_in_order(v: ParserView)
    ensures
        match v.step().0 {
            None => remaining_keys(v).len() == 0,
            Some(k) => remaining_keys(v) == seq![k] + remaining_keys(v.step().1),
        },
    decreases v.buf.len(),
{
    let norm = |k: KeyEvent| normalized(k);
    lemma_token_used(v.buf);
    if v.pending.len() > 0 {
        assert(remaining_keys(v) =~= seq![norm(v.pending[0])] + remaining_keys(v.step().1));
    } else {
        assert(v.pending.map_values(norm) =~= Seq::empty());
        match token_of(v.buf) {
            Token::Incomplete => {},
            Token::Ignored { used } => {
                let w = ParserView { buf: v.buf.skip(used), pending: v.pending };
                events_come_in_order(w);
                assert(remaining_keys(v) =~= remaining_keys(w));
            },
            Token::Press { used, event, repeat } => {
                let w = v.step().1;
                assert(repeated(normalized(event), repeat) =~= seq![normalized(event)]
                    + w.pending.map_values(norm));
                assert(remaining_keys(v) =~= seq![normalized(event)] + remaining_keys(w));
            },
        }
    }
}

/// Normalising twice is normalising once.
pub proof fn normalizing_is_idempotent(k: KeyEvent)
    ensures
        normalized(normalized(k)) == normalized(k),
{
}

/// Which single modifiers a set with at most one of them holds.
pub proof fn lemma_single_mods()
    ensures
        !Mods(0).has(Mods(SHIFT_BIT)) && !Mods(0).has(Mods(ALT_BIT)) && !Mods(0).has(Mods(CTRL_BIT)),
        Mods(SHIFT_BIT).has(Mods(SHIFT_BIT)) && !Mods(SHIFT_BIT).has(Mods(ALT_BIT))
            && !Mods(SHIFT_BIT).has(Mods(CTRL_BIT)),
        Mods(ALT_BIT).has(Mods(ALT_BIT)) && !Mods(ALT_BIT).has(Mods(CTRL_BIT)),
        Mods(CTRL_BIT).has(Mods(CTRL_BIT)) && !Mods(CTRL_BIT).has(Mods(ALT_BIT)),
{
    assert(0u8 & 1 == 0 && 0u8 & 2 == 0 && 0u8 & 4 == 0 && 1u8 & 1 == 1 && 1u8 & 2 == 0 && 1u8 & 4
        == 0 && 2u8 & 2 == 2 && 2u8 & 4 == 0 && 4u8 & 4 == 4 && 4u8 & 2 == 0) by (bit_vector);
}

/// A number as a terminal spells it.
pub open spec fn spelled(n: int) -> Seq<u8>
    decreases n,
{
    if n < 10 {
        seq![('0' as u8 + n) as u8]
    } else {
        spelled(n / 10).push(('0' as u8 + n % 10) as u8)
    }
}

/// Two numbers with a semicolon between them.
pub open spec fn two_numbers(a: int, b: int) -> Seq<u8> {
    spelled(a) + seq![';' as u8] + spelled(b)
}

/// A report of a terminal: what it is about, and a letter behind it.
pub open spec fn report(params: Seq<u8>, letter: u8) -> Seq<u8> {
    seq![0x1bu8, '[' as u8] + params + seq![letter]
}

proof fn lemma_spelled(n: int)
    requires
        0 <= n <= u32::MAX,
    ensures
        params_of(spelled(n)) == seq![n],
        forall|i: int| 0 <= i < spelled(n).len() ==> '0' as u8 <= #[trigger] spelled(n)[i] <= '9' as u8,
    decreases n,
{
    let s = spelled(n);
    if n < 10 {
        assert(s.drop_last() =~= Seq::<u8>::empty());
        assert(params_of(s.drop_last()) =~= seq![0int]);
    } else {
        lemma_spelled(n / 10);
        assert(s.drop_last() =~= spelled(n / 10));
        assert forall|i: int| 0 <= i < s.len() implies '0' as u8 <= #[trigger] s[i] <= '9' as u8 by {
            if i < s.len() - 1 {
                assert(s[i] == spelled(n / 10)[i]);
            }
        }
    }
    assert(params_of(s) =~= seq![n]);
}

proof fn lemma_params_join(a: Seq<u8>, b: Seq<u8>)
    ensures
        params_of(a + seq![';' as u8] + b) == params_of(a) + params_of(b),
        params_of(b).len() > 0,
    decreases b.len(),
{
    let s = a + seq![';' as u8] + b;
    if b.len() == 0 {
        assert(s.drop_last() =~= a);
        assert(params_of(s) =~= params_of(a) + params_of(b));
    } else {
        lemma_params_join(a, b.drop_last());
        assert(s.drop_last() =~= a + seq![';' as u8] + b.drop_last());
        assert(s.last() == b.last());
        let (p, q) = (params_of(a), params_of(b.drop_last()));
        assert((p + q).last() == q.last());
        assert(params_of(s) =~= p + params_of(b));
    }
}

/// Numbers with semicolons between them are read back in order.
pub proof fn numbers_in_reports_are_read_back(a: int, b: int, rest: Seq<u8>)
    requires
        0 <= a <= u32::MAX,
        0 <= b <= u32::MAX,
    ensures
        params_of(spelled(a)) == seq![a],
        params_of(two_numbers(a, b)) == seq![a, b],
        params_of(two_numbers(a, b) + seq![';' as u8] + rest) == seq![a, b] + params_of(rest),
{
    lemma_spelled(a);
    lemma_spelled(b);
    lemma_params_join(spelled(a), spelled(b));
    assert(seq![a] + seq![b] =~= seq![a, b]);
    lemma_params_join(two_numbers(a, b), rest);
}

proof fn lemma_report_end(s: Seq<u8>, i: int, end: int)
    requires
        0 <= i <= end < s.len(),
        0x40 <= s[end] <= 0x7e,
        forall|j: int| i <= j < end ==> #[trigger] s[j] < 0x40,
    ensures
        csi_end(s, i) == end,
    decreases end - i,
{
    if i < end {
        lemma_report_end(s, i + 1, end);
    }
}

proof fn lemma_report_token(params: Seq<u8>, letter: u8, rest: Seq<u8>)
    requires
        0x40 <= letter <= 0x7e,
        forall|j: int| 0 <= j < params.len() ==> #[trigger] params[j] < 0x40,
    ensures
        token_of(report(params, letter) + rest) == csi_token(report(params, letter) + rest),
        csi_end(report(params, letter) + rest, 2) == params.len() + 2,
        (report(params, letter) + rest).subrange(2, params.len() as int + 2) == params,
        (report(params, letter) + rest)[params.len() as int + 2] == letter,
        params.len() + 2 < (report(params, letter) + rest).len(),
{
    let s = report(params, letter) + rest;
    let end = params.len() as int + 2;
    assert forall|j: int| 2 <= j < end implies #[trigger] s[j] < 0x40 by {
        assert(s[j] == params[j - 2]);
    }
    assert(s[0] == 0x1b && s[1] == 0x5b && s[end] == letter);
    lemma_report_end(s, 2, end);
    assert(s.subrange(2, end) =~= params);
}

proof fn lemma_numbers_are_small(a: int, b: int)
    requires
        0 <= a <= u32::MAX,
        0 <= b <= u32::MAX,
    ensures
        forall|j: int| 0 <= j < two_numbers(a, b).len() ==> #[trigger] two_numbers(a, b)[j] < 0x40,
{
    lemma_spelled(a);
    lemma_spelled(b);
    let s = two_numbers(a, b);
    let n = spelled(a).len() as int;
    assert forall|j: int| 0 <= j < s.len() implies #[trigger] s[j] < 0x40 by {
        if j < n {
            assert(s[j] == spelled(a)[j]);
        } else if j > n {
            assert(s[j] == spelled(b)[j - n - 1]);
        }
    }
}

/// The letter that stands for a cursor key in reports.
pub open spec fn letter_of(k: Key) -> Option<char> {
    match k {
        Key::Up => Some('A'),
        Key::Down => Some('B'),
        Key::Right => Some('C'),
        Key::Left => Some('D'),
        Key::Home => Some('H'),
        Key::End => Some('F'),
        _ => None,
    }
}

/// The number that stands for a key in reports that end in a tilde.
pub open spec fn number_of(k: Key) -> Option<int> {
    match k {
        Key::Home => Some(1),
        Key::Insert => Some(2),
        Key::Delete => Some(3),
        Key::End => Some(4),
        Key::PageUp => Some(5),
        Key::PageDown => Some(6),
        Key::F(n) => if 1 <= n <= 5 {
            Some(n + 10)
        } else if 6 <= n <= 10 {
            Some(n + 11)
        } else if 11 <= n <= 12 {
            Some(n + 12)
        } else {
            None
        },
        _ => None,
    }
}

/// A report of a cursor key is read as that key with its modifiers, and what
/// follows it is left.
pub proof fn cursor_keys_are_read(k: Key, mods: u8, rest: Seq<u8>)
    requires
        letter_of(k) is Some,
        mods < 8,
    ensures
        ({
            let s = report(two_numbers(1, mods + 1), letter_of(k)->0 as u8);
            token_of(s + rest) == (Token::Press {
                used: s.len() as int,
                event: KeyEvent { key: k, mods: Mods(mods) },
                repeat: 1,
            })
        }),
{
    let params = two_numbers(1, mods + 1);
    lemma_numbers_are_small(1, mods + 1);
    numbers_in_reports_are_read_back(1, mods + 1, Seq::empty());
    lemma_report_token(params, letter_of(k)->0 as u8, rest);
    assert(csi_mods(mods + 1) == Mods(mods));
}

/// A report of a numbered key is read as that key with its modifiers.
pub proof fn numbered_keys_are_read(k: Key, mods: u8, rest: Seq<u8>)
    requires
        number_of(k) is Some,
        mods < 8,
    ensures
        ({
            let s = report(two_numbers(number_of(k)->0, mods + 1), '~' as u8);
            token_of(s + rest) == (Token::Press {
                used: s.len() as int,
                event: KeyEvent { key: k, mods: Mods(mods) },
                repeat: 1,
            })
        }),
{
    let n = number_of(k)->0;
    let params = two_numbers(n, mods + 1);
    lemma_numbers_are_small(n, mods + 1);
    numbers_in_reports_are_read_back(n, mods + 1, Seq::empty());
    lemma_report_token(params, '~' as u8, rest);
    assert(csi_mods(mods + 1) == Mods(mods));
}

/// A report of a code point is read as its character with its modifiers, but for
/// the four that have keys of their own.
pub proof fn code_points_are_read(c: char, mods: u8, rest: Seq<u8>)
    requires
        mods < 8,
    ensures
        ({
            let s = report(two_numbers(c as int, mods + 1), 'u' as u8);
            let key = if c as int == 9 {
                Key::Tab
            } else if c as int == 13 {
                Key::Enter
            } else if c as int == 27 {
                Key::Esc
            } else if c as int == 127 {
                Key::Backspace
            } else {
                Key::Char(c)
            };
            token_of(s + rest) == (Token::Press {
                used: s.len() as int,
                event: KeyEvent { key, mods: Mods(mods) },
                repeat: 1,
            })
        }),
{
    let n = c as int;
    vstd::utf8::char_is_scalar(c);
    let params = two_numbers(n, mods + 1);
    lemma_numbers_are_small(n, mods + 1);
    numbers_in_reports_are_read_back(n, mods + 1, Seq::empty());
    lemma_report_token(params, 'u' as u8, rest);
    assert(csi_mods(mods + 1) == Mods(mods));
    assert(n as u32 == c as u32);
    assert(c as u32 as char == c);
}

/// The modifiers of a key record are those whose bits are set: either Alt, either
/// Ctrl, and Shift.
pub proof fn record_modifiers_are_bits(cs: u32)
    ensures
        win32_mods(cs as int).0 & SHIFT_BIT != 0 <==> cs & 0x10 != 0,
        win32_mods(cs as int).0 & ALT_BIT != 0 <==> cs & 0x03 != 0,
        win32_mods(cs as int).0 & CTRL_BIT != 0 <==> cs & 0x0c != 0,
        win32_mods(cs as int).0 < 8,
{
    assert(cs & 0x10 != 0 <==> cs % 32 >= 16) by (bit_vector);
    assert(cs & 0x03 != 0 <==> cs % 4 != 0) by (bit_vector);
    assert(cs & 0x0c != 0 <==> cs % 16 >= 4) by (bit_vector);
    let m = win32_mods(cs as int).0;
    assert(m < 8);
    assert(m < 8 ==> (m & 1 != 0 <==> m % 2 == 1) && (m & 2 != 0 <==> m % 4 >= 2) && (m & 4 != 0 <==> m
        >= 4)) by (bit_vector);
}

/// Escape and a visible character, other than the two that begin reports, are
/// that character with Alt.
pub proof fn escape_and_a_character_is_alt(b: u8, rest: Seq<u8>)
    requires
        0x21 <= b <= 0x7e,
        b != '[' as u8,
        b != 'O' as u8,
    ensures
        token_of(seq![0x1bu8, b] + rest) == (Token::Press {
            used: 2,
            event: KeyEvent { key: Key::Char(b as char), mods: Mods(ALT_BIT) },
            repeat: 1,
        }),
{
    let s = seq![0x1bu8, b] + rest;
    assert(s[0] == 0x1b && s[1] == b);
}

/// The control bytes are letters with Ctrl, but for those that have keys of their
/// own.
pub proof fn control_bytes_are_keys(b: u8, rest: Seq<u8>)
    requires
        b < 0x20 || b == 0x7f,
        b != 0x1b,
    ensures
        ({
            let event = if b == 0x09 {
                KeyEvent { key: Key::Tab, mods: Mods(0) }
            } else if b == 0x0a || b == 0x0d {
                KeyEvent { key: Key::Enter, mods: Mods(0) }
            } else if b == 0x7f {
                KeyEvent { key: Key::Backspace, mods: Mods(0) }
            } else if b == 0 {
                KeyEvent { key: Key::Char(' '), mods: Mods(CTRL_BIT) }
            } else {
                KeyEvent { key: Key::Char((b + 'a' as u8 - 1) as u8 as char), mods: Mods(CTRL_BIT) }
            };
            token_of(seq![b] + rest) == (Token::Press { used: 1, event, repeat: 1 })
        }),
{
    let s = seq![b] + rest;
    assert(s[0] == b);
}

/// A character that is no control character is read as itself, and what follows
/// its bytes is left.
pub proof fn characters_are_read(c: char, rest: Seq<u8>)
    requires
        c as int >= 0x20,
        c as int != 0x7f,
    ensures
        ({
            let s = encode_utf8(seq![c]);
            token_of(s + rest) == (Token::Press {
                used: s.len() as int,
                event: KeyEvent { key: Key::Char(c), mods: Mods(0) },
                repeat: 1,
            })
        }),
{
    let s = encode_utf8(seq![c]);
    encode_utf8_valid_utf8(seq![c]);
    encode_utf8_decode_utf8(seq![c]);
    encode_utf8_first_scalar(seq![c]);
    reveal_with_fuel(encode_utf8, 2);
    assert(seq![c].drop_first() =~= Seq::<char>::empty());
    vstd::utf8::char_is_scalar(c);
    assert(s.len() > 0);
    lemma_first_char(s);
    lemma_whole_char(s, 0);
    let all = s + rest;
    assert(all[0] == s[0]);
    lemma_one_char_long(c);
    assert(all.take(s.len() as int) =~= s);
}

/// The first byte of a character tells how many bytes it has.
proof fn lemma_one_char_long(c: char)
    ensures
        ({
            let s = encode_utf8(seq![c]);
            &&& s.len() > 0
            &&& char_len(s[0]) == s.len()
            &&& c as int >= 0x20 && c as int != 0x7f ==> s[0] >= 0x20 && s[0] != 0x7f
        }),
{
    let s = encode_utf8(seq![c]);
    encode_utf8_valid_utf8(seq![c]);
    encode_utf8_decode_utf8(seq![c]);
    encode_utf8_first_scalar(seq![c]);
    vstd::utf8::char_is_scalar(c);
    reveal_with_fuel(encode_utf8, 2);
    assert(seq![c].drop_first() =~= Seq::<char>::empty());
    assert(s =~= encode_scalar(c as u32));
    lemma_first_char(s);
    lemma_whole_char(s, 0);
    let u = c as u32;
    assert(u < 0x80 ==> (u & 0x7f) as u8 == u as u8) by (bit_vector);
    reveal_with_fuel(valid_utf8, 2);
    let n = char_len(s[0]);
    assert(n == length_of_first_scalar(s));
}

/// Six numbers with semicolons between them.
pub open spec fn six_numbers(a: int, b: int, c: int, d: int, e: int, f: int) -> Seq<u8> {
    two_numbers(a, b) + seq![';' as u8] + (two_numbers(c, d) + seq![';' as u8] + two_numbers(e, f))
}

proof fn lemma_six_numbers(a: int, b: int, c: int, d: int, e: int, f: int)
    requires
        0 <= a <= u32::MAX,
        0 <= b <= u32::MAX,
        0 <= c <= u32::MAX,
        0 <= d <= u32::MAX,
        0 <= e <= u32::MAX,
        0 <= f <= u32::MAX,
    ensures
        params_of(six_numbers(a, b, c, d, e, f)) == seq![a, b, c, d, e, f],
        forall|j: int|
            0 <= j < six_numbers(a, b, c, d, e, f).len() ==> #[trigger] six_numbers(a, b, c, d, e, f)[j]
                < 0x40,
{
    let (x, y, z) = (two_numbers(a, b), two_numbers(c, d), two_numbers(e, f));
    let yz = y + seq![';' as u8] + z;
    numbers_in_reports_are_read_back(a, b, yz);
    numbers_in_reports_are_read_back(c, d, z);
    numbers_in_reports_are_read_back(e, f, Seq::empty());
    assert(seq![a, b] + (seq![c, d] + seq![e, f]) =~= seq![a, b, c, d, e, f]);
    lemma_numbers_are_small(a, b);
    lemma_numbers_are_small(c, d);
    lemma_numbers_are_small(e, f);
    let s = six_numbers(a, b, c, d, e, f);
    assert forall|j: int| 0 <= j < s.len() implies #[trigger] s[j] < 0x40 by {
        if j < x.len() {
            assert(s[j] == x[j]);
        } else if j > x.len() {
            let k = j - x.len() - 1;
            assert(s[j] == yz[k]);
            if k < y.len() {
                assert(yz[k] == y[k]);
            } else if k > y.len() {
                assert(yz[k] == z[k - y.len() - 1]);
            }
        }
    }
}

/// The number of a key in key records.
pub open spec fn record_number(k: Key) -> Option<int> {
    match k {
        Key::Backspace => Some(0x08),
        Key::Tab => Some(0x09),
        Key::Enter => Some(0x0d),
        Key::Esc => Some(0x1b),
        Key::PageUp => Some(0x21),
        Key::PageDown => Some(0x22),
        Key::End => Some(0x23),
        Key::Home => Some(0x24),
        Key::Left => Some(0x25),
        Key::Up => Some(0x26),
        Key::Right => Some(0x27),
        Key::Down => Some(0x28),
        Key::Insert => Some(0x2d),
        Key::Delete => Some(0x2e),
        Key::F(n) => if 1 <= n <= 12 { Some(0x6f + n) } else { None },
        Key::Char(c) => if c == ' ' {
            Some(0x20)
        } else if 'a' <= c <= 'z' {
            Some(c as int - 0x20)
        } else {
            None
        },
    }
}

/// A record of a key that goes down is read as that key, as often as the record
/// says and at least once; one of a key that goes up says nothing.
pub proof fn key_records_are_read(k: Key, sc: int, uc: int, cs: int, count: int, rest: Seq<u8>)
    requires
        record_number(k) is Some,
        0 <= sc <= u32::MAX,
        0 <= uc <= u32::MAX,
        0 <= cs <= u32::MAX,
        0 <= count <= u32::MAX,
    ensures
        ({
            let vk = record_number(k)->0;
            let down = report(six_numbers(vk, sc, uc, 1, cs, count), '_' as u8);
            let up = report(six_numbers(vk, sc, uc, 0, cs, count), '_' as u8);
            &&& token_of(down + rest) == (Token::Press {
                used: down.len() as int,
                event: KeyEvent { key: k, mods: win32_mods(cs) },
                repeat: if count == 0 { 1 } else { count },
            })
            &&& token_of(up + rest) == (Token::Ignored { used: up.len() as int })
        }),
{
    let vk = record_number(k)->0;
    lemma_six_numbers(vk, sc, uc, 1, cs, count);
    lemma_six_numbers(vk, sc, uc, 0, cs, count);
    lemma_report_token(six_numbers(vk, sc, uc, 1, cs, count), '_' as u8, rest);
    lemma_report_token(six_numbers(vk, sc, uc, 0, cs, count), '_' as u8, rest);
    if let Key::Char(c) = k {
        if c != ' ' {
            let n = c as int;
            assert(win32_named(n - 0x20) == Some(Key::Char((n - 0x20 + 0x20) as u8 as char)));
            assert(n as u8 as char == c);
        }
    }
}

/// A record of a key without a name is read as the character that it makes, and
/// Shift, which made it, is dropped.
pub proof fn text_records_are_read(c: char, sc: int, cs: u32, count: int, rest: Seq<u8>)
    requires
        c as int >= 0x20,
        !(0x7f <= c as int && (c as int) < 0xa0),
        0 <= sc <= u32::MAX,
        1 <= count <= u32::MAX,
    ensures
        ({
            let s = report(six_numbers(0xbf, sc, c as int, 1, cs as int, count), '_' as u8);
            token_of(s + rest) matches Token::Press { used, event, repeat } && used == s.len()
                && repeat == count && event.key == Key::Char(c) && !event.mods.has(Mods(SHIFT_BIT))
                && (event.mods.has(Mods(ALT_BIT)) <==> cs & 0x03 != 0) && (event.mods.has(
                Mods(CTRL_BIT),
            ) <==> cs & 0x0c != 0)
        }),
{
    vstd::utf8::char_is_scalar(c);
    lemma_six_numbers(0xbf, sc, c as int, 1, cs as int, count);
    lemma_report_token(six_numbers(0xbf, sc, c as int, 1, cs as int, count), '_' as u8, rest);
    assert(c as int as u32 == c as u32);
    assert(c as u32 as char == c);
    record_modifiers_are_bits(cs);
    let m = win32_mods(cs as int).0;
    assert((m & 0xfe) & 1 != 1 && ((m & 0xfe) & 2 == 2 <==> m & 2 != 0) && ((m & 0xfe) & 4 == 4 <==> m & 4
        != 0)) by (bit_vector);
}

}
