//! Numbers, keys and bytes as text.
use vstd::prelude::*;
use crate::strings::chars_of;
use crate::input::{Key, KeyEvent, Mods, ALT_BIT, CTRL_BIT, SHIFT_BIT};

verus! {

/// The ASCII digit for a number below sixteen.
pub open spec fn digit_char(d: int, upper: bool) -> char {
    if d < 10 {
        (0x30 + d) as u8 as char
    } else if upper {
        (0x41 + d - 10) as u8 as char
    } else {
        (0x61 + d - 10) as u8 as char
    }
}

/// `n` in the given base, without leading zeros.
pub open spec fn numeral(n: int, base: int, upper: bool) -> Seq<char>
    decreases n,
{
    if base < 2 || n < base {
        seq![digit_char(n, upper)]
    } else {
        proof {
            assert(0 <= n / base < n) by (nonlinear_arith)
                requires
                    n >= base,
                    base >= 2,
            ;
        }
        numeral(n / base, base, upper).push(digit_char(n % base, upper))
    }
}

/// `n` in decimal.
pub open spec fn decimal(n: int) -> Seq<char> {
    numeral(n, 10, false)
}

/// `s` with copies of `c` before it up to `width` characters.
pub open spec fn padded_left(s: Seq<char>, width: int, c: char) -> Seq<char> {
    if s.len() >= width { s } else { run_of(c, width - s.len()) + s }
}

/// `n` copies of `c`.
pub open spec fn run_of(c: char, n: int) -> Seq<char> {
    Seq::new(n as nat, |i: int| c)
}

fn digit_of(d: u64, upper: bool) -> (r: char)
    requires
        d < 16,
    ensures
        r == digit_char(d as int, upper),
{
    if d < 10 {
        (0x30 + d as u8) as char
    } else if upper {
        (0x41 + (d as u8 - 10)) as char
    } else {
        (0x61 + (d as u8 - 10)) as char
    }
}

fn numeral_of(n: u64, base: u64, upper: bool) -> (r: Vec<char>)
    requires
        2 <= base <= 16,
    ensures
        r@ == numeral(n as int, base as int, upper),
    decreases n,
{
    if n < base {
        let mut r: Vec<char> = Vec::new();
        r.push(digit_of(n, upper));
        assert(r@ =~= seq![digit_char(n as int, upper)]);
        r
    } else {
        assert(0 <= n / base < n) by (nonlinear_arith)
            requires
                n >= base,
                base >= 2,
        ;
        let mut r = numeral_of(n / base, base, upper);
        r.push(digit_of(n % base, upper));
        r
    }
}

/// Append text to a string.
pub fn push_text(out: &mut String, s: &str)
    ensures
        final(out)@ == old(out)@ + s@,
{
    out.append(s);
}

/// Append `n` copies of a character.
pub fn push_run(out: &mut String, c: char, n: usize)
    ensures
        final(out)@ == old(out)@ + run_of(c, n as int),
{
    let ghost base = out@;
    let mut i: usize = 0;
    assert(base + run_of(c, 0) =~= base);
    while i < n
        invariant
            i <= n,
            out@ == base + run_of(c, i as int),
        decreases n - i,
    {
        out.push(c);
        assert((base + run_of(c, i as int)).push(c) =~= base + run_of(c, i + 1));
        i += 1;
    }
}

pub fn push_chars(out: &mut String, chars: &[char])
    ensures
        final(out)@ == old(out)@ + chars@,
{
    let ghost base = out@;
    let mut i: usize = 0;
    assert(base + chars@.take(0) =~= base);
    while i < chars.len()
        invariant
            i <= chars@.len(),
            out@ == base + chars@.take(i as int),
        decreases chars@.len() - i,
    {
        out.push(chars[i]);
        assert((base + chars@.take(i as int)).push(chars@[i as int]) =~= base + chars@.take(i + 1));
        i += 1;
    }
    assert(chars@.take(i as int) =~= chars@);
}

/// Append a decimal number.
pub fn push_decimal(out: &mut String, n: u64)
    ensures
        final(out)@ == old(out)@ + decimal(n as int),
{
    let d = numeral_of(n, 10, false);
    push_chars(out, d.as_slice());
}

/// Append a decimal number, padded with spaces to at least `width`.
pub fn push_decimal_padded(out: &mut String, n: u64, width: usize)
    ensures
        final(out)@ == old(out)@ + padded_left(decimal(n as int), width as int, ' '),
{
    let ghost base = out@;
    let d = numeral_of(n, 10, false);
    if d.len() < width {
        let pad: usize = width - d.len();
        push_run(out, ' ', pad);
        push_chars(out, d.as_slice());
        assert(base + run_of(' ', pad as int) + d@ =~= base + (run_of(' ', pad as int) + d@));
    } else {
        push_chars(out, d.as_slice());
    }
}

fn push_hex_padded(out: &mut String, n: u64, width: usize, upper: bool)
    ensures
        final(out)@ == old(out)@ + padded_left(numeral(n as int, 16, upper), width as int, '0'),
{
    let ghost base = out@;
    let d = numeral_of(n, 16, upper);
    if d.len() < width {
        let pad: usize = width - d.len();
        push_run(out, '0', pad);
        push_chars(out, d.as_slice());
        assert(base + run_of('0', pad as int) + d@ =~= base + (run_of('0', pad as int) + d@));
    } else {
        push_chars(out, d.as_slice());
    }
}

/// How many digits a number has in decimal.
pub fn decimal_len(n: u64) -> (r: usize)
    ensures
        r == decimal(n as int).len(),
        1 <= r <= 20,
{
    let r: usize = numeral_of(n, 10, false).len();
    proof {
        lemma_decimal_len(n as int, 20);
    }
    r
}

pub open spec fn ten_to(k: int) -> int
    decreases k,
{
    if k <= 0 { 1 } else { 10 * ten_to(k - 1) }
}

/// A number below the `k`-th power of ten has at most `k` digits.
pub proof fn lemma_decimal_len(n: int, k: int)
    requires
        0 <= n < ten_to(k) || n <= 0xffff_ffff_ffff_ffff && k == 20,
        0 <= n,
        1 <= k,
    ensures
        1 <= decimal(n).len() <= k,
    decreases k,
{
    if k == 20 {
        assert(n < ten_to(20)) by {
            reveal_with_fuel(ten_to, 21);
        }
    }
    if n >= 10 {
        if k == 1 {
            assert(ten_to(1) == 10) by {
                reveal_with_fuel(ten_to, 2);
            }
        } else {
            assert(n / 10 < ten_to(k - 1));
            lemma_decimal_len(n / 10, k - 1);
        }
    }
}

pub open spec fn is_graphic(n: int) -> bool {
    0x21 <= n <= 0x7e
}

/// A character in single quotes, with a quote or a backslash escaped.
pub open spec fn quoted_char(c: char) -> Seq<char> {
    if c == '\'' || c == '\\' {
        seq!['\'', '\\', c, '\'']
    } else {
        seq!['\'', c, '\'']
    }
}

pub open spec fn key_name(key: Key) -> Seq<char> {
    match key {
        Key::Char(c) => if is_graphic(c as int) || c == ' ' {
            quoted_char(c)
        } else {
            "U+"@ + padded_left(numeral(c as int, 16, true), 4, '0')
        },
        Key::Enter => "Enter"@,
        Key::Tab => "Tab"@,
        Key::Backspace => "Bksp"@,
        Key::Esc => "Esc"@,
        Key::Up => "Up"@,
        Key::Down => "Down"@,
        Key::Left => "Left"@,
        Key::Right => "Right"@,
        Key::Home => "Home"@,
        Key::End => "End"@,
        Key::PageUp => "PgUp"@,
        Key::PageDown => "PgDn"@,
        Key::Insert => "Ins"@,
        Key::Delete => "Del"@,
        Key::F(n) => "F"@ + decimal(n as int),
    }
}

/// A key with its modifiers, as the status line shows it.
pub open spec fn key_text(k: KeyEvent) -> Seq<char> {
    let c = if k.mods.has(Mods(CTRL_BIT)) { "C-"@ } else { Seq::empty() };
    let a = if k.mods.has(Mods(ALT_BIT)) { "A-"@ } else { Seq::empty() };
    let s = if k.mods.has(Mods(SHIFT_BIT)) { "S-"@ } else { Seq::empty() };
    c + a + s + key_name(k.key)
}

fn name_of_char(c: char) -> (r: String)
    ensures
        r@ == key_name(Key::Char(c)),
{
    let mut s = String::new();
    let n: u32 = c as u32;
    if (0x21 <= n && n <= 0x7e) || c == ' ' {
        s.push('\'');
        if c == '\'' || c == '\\' {
            s.push('\\');
        }
        s.push(c);
        s.push('\'');
        assert(s@ =~= quoted_char(c));
    } else {
        push_text(&mut s, "U+");
        push_hex_padded(&mut s, n as u64, 4, true);
        assert(s@ =~= "U+"@ + padded_left(numeral(c as int, 16, true), 4, '0'));
    }
    s
}

fn name_of_key(key: Key) -> (r: String)
    ensures
        r@ == key_name(key),
{
    match key {
        Key::Char(c) => name_of_char(c),
        Key::Enter => "Enter".to_owned(),
        Key::Tab => "Tab".to_owned(),
        Key::Backspace => "Bksp".to_owned(),
        Key::Esc => "Esc".to_owned(),
        Key::Up => "Up".to_owned(),
        Key::Down => "Down".to_owned(),
        Key::Left => "Left".to_owned(),
        Key::Right => "Right".to_owned(),
        Key::Home => "Home".to_owned(),
        Key::End => "End".to_owned(),
        Key::PageUp => "PgUp".to_owned(),
        Key::PageDown => "PgDn".to_owned(),
        Key::Insert => "Ins".to_owned(),
        Key::Delete => "Del".to_owned(),
        Key::F(n) => {
            let mut s = "F".to_owned();
            push_decimal(&mut s, n as u64);
            s
        },
    }
}

pub fn format_key(k: &KeyEvent) -> (r: String)
    ensures
        r@ == key_text(*k),
{
    let mut s = String::new();
    let ghost e = Seq::<char>::empty();
    let ghost c = if k.mods.has(Mods(CTRL_BIT)) { "C-"@ } else { e };
    let ghost a = if k.mods.has(Mods(ALT_BIT)) { "A-"@ } else { e };
    let ghost h = if k.mods.has(Mods(SHIFT_BIT)) { "S-"@ } else { e };
    if k.mods.contains(Mods(CTRL_BIT)) {
        push_text(&mut s, "C-");
    }
    assert(s@ =~= c);
    if k.mods.contains(Mods(ALT_BIT)) {
        push_text(&mut s, "A-");
    }
    assert(s@ =~= c + a);
    if k.mods.contains(Mods(SHIFT_BIT)) {
        push_text(&mut s, "S-");
    }
    assert(s@ =~= c + a + h);
    let name = name_of_key(k.key);
    push_text(&mut s, name.as_str());
    s
}

/// Bytes as the status line shows them: printable ones as they are, others in
/// hexadecimal.
pub open spec fn bytes_text(b: Seq<u8>) -> Seq<char>
    decreases b.len(),
{
    if b.len() == 0 {
        Seq::empty()
    } else {
        let c = b.last();
        bytes_text(b.drop_last()) + (if is_graphic(c as int) || c == 0x20 {
            seq![c as char]
        } else {
            "\\x"@ + padded_left(numeral(c as int, 16, false), 2, '0')
        })
    }
}

pub fn format_bytes(bytes: &[u8]) -> (r: String)
    ensures
        r@ == bytes_text(bytes@),
{
    let mut s = String::new();
    let mut i: usize = 0;
    assert(bytes@.take(0) =~= Seq::<u8>::empty());
    while i < bytes.len()
        invariant
            i <= bytes@.len(),
            s@ == bytes_text(bytes@.take(i as int)),
        decreases bytes@.len() - i,
    {
        let b: u8 = bytes[i];
        let ghost head = s@;
        assert(bytes@.take(i + 1).drop_last() =~= bytes@.take(i as int));
        if (0x21 <= b && b <= 0x7e) || b == 0x20 {
            s.push(b as char);
            assert(s@ =~= head + seq![b as char]);
        } else {
            push_text(&mut s, "\\x");
            push_hex_padded(&mut s, b as u64, 2, false);
            assert(s@ =~= head + ("\\x"@ + padded_left(numeral(b as int, 16, false), 2, '0')));
        }
        i += 1;
    }
    assert(bytes@.take(i as int) =~= bytes@);
    s
}

// ---------------------------------------------------------------------------
// Reading numbers
// ---------------------------------------------------------------------------

pub open spec fn is_digit(c: char) -> bool {
    '0' <= c <= '9'
}

pub open spec fn all_digits(s: Seq<char>) -> bool {
    forall|i: int| 0 <= i < s.len() ==> is_digit(#[trigger] s[i])
}

/// The number that decimal digits stand for.
pub open spec fn value_of(s: Seq<char>) -> int
    decreases s.len(),
{
    if s.len() == 0 {
        0
    } else {
        10 * value_of(s.drop_last()) + (s.last() as int - '0' as int)
    }
}

/// The digits of a number: a plus sign may stand before them.
pub open spec fn digits_of(s: Seq<char>) -> Seq<char> {
    if s.len() > 0 && s[0] == '+' { s.skip(1) } else { s }
}

/// `s` is a decimal number that a `usize` can hold.
pub open spec fn is_number(s: Seq<char>) -> bool {
    let d = digits_of(s);
    d.len() > 0 && all_digits(d) && value_of(d) <= usize::MAX
}

/// Read a decimal number; nothing when the text is not one or it is too big.
pub fn parse_usize(s: &str) -> (r: Option<usize>)
    ensures
        r is Some <==> is_number(s@),
        r matches Some(n) ==> n == value_of(digits_of(s@)),
{
    let chars = chars_of(s);
    let start: usize = if chars.len() > 0 && chars[0] == '+' {
        1
    } else {
        0
    };
    let ghost d = digits_of(s@);
    assert(d =~= chars@.skip(start as int));
    if start >= chars.len() {
        return None;
    }
    let mut n: usize = 0;
    let mut i: usize = start;
    assert(chars@.subrange(start as int, start as int) =~= d.take(0));
    while i < chars.len()
        invariant
            start <= i <= chars@.len(),
            d == chars@.skip(start as int),
            d == digits_of(s@),
            d.len() > 0,
            all_digits(d.take(i - start)),
            n == value_of(d.take(i - start)),
        decreases chars@.len() - i,
    {
        let c = chars[i];
        let ghost k = i - start;
        assert(d[k] == c);
        assert(d.take(k + 1).drop_last() =~= d.take(k));
        if c < '0' || c > '9' {
            assert(!is_digit(d[k]));
            return None;
        }
        let v: usize = (c as u32 - 0x30) as usize;
        proof {
            assert(value_of(d.take(k + 1)) == 10 * n + v);
            if all_digits(d) {
                lemma_value_grows(d, k + 1);
            }
        }
        if n > (usize::MAX - v) / 10 {
            return None;
        }
        n = 10 * n + v;
        i += 1;
        assert(all_digits(d.take(k + 1))) by {
            assert forall|j: int| 0 <= j < k + 1 implies is_digit(#[trigger] d.take(k + 1)[j]) by {
                if j < k {
                    assert(d.take(k)[j] == d.take(k + 1)[j]);
                }
            }
        }
    }
    assert(d.take(i - start) =~= d);
    Some(n)
}

proof fn lemma_value_grows(d: Seq<char>, k: int)
    requires
        all_digits(d),
        0 <= k <= d.len(),
    ensures
        0 <= value_of(d.take(k)) <= value_of(d),
    decreases d.len(),
{
    if k == d.len() {
        assert(d.take(k) =~= d);
        if d.len() > 0 {
            let t = d.drop_last();
            assert(all_digits(t)) by {
                assert forall|j: int| 0 <= j < t.len() implies is_digit(#[trigger] t[j]) by {
                    assert(t[j] == d[j]);
                }
            }
            lemma_value_grows(t, t.len() as int);
            assert(t.take(t.len() as int) =~= t);
            assert(is_digit(d.last()));
        }
    } else {
        let t = d.drop_last();
        assert(all_digits(t)) by {
            assert forall|j: int| 0 <= j < t.len() implies is_digit(#[trigger] t[j]) by {
                assert(t[j] == d[j]);
            }
        }
        lemma_value_grows(t, k);
        assert(t.take(k) =~= d.take(k));
        assert(is_digit(d.last()));
    }
}

/// A number that was written in decimal is read back.
pub proof fn numbers_are_read_back(n: int)
    requires
        0 <= n <= usize::MAX,
    ensures
        is_number(decimal(n)),
        value_of(digits_of(decimal(n))) == n,
{
    lemma_decimal_value(n);
    let d = decimal(n);
    assert(is_digit(d[0]));
}

proof fn lemma_decimal_value(n: int)
    requires
        0 <= n,
    ensures
        decimal(n).len() > 0,
        all_digits(decimal(n)),
        value_of(decimal(n)) == n,
    decreases n,
{
    let d = decimal(n);
    if n < 10 {
        assert(d =~= seq![digit_char(n, false)]);
        assert(d.drop_last() =~= Seq::<char>::empty());
        assert(value_of(d.drop_last()) == 0);
        assert(is_digit(d[0]));
    } else {
        lemma_decimal_value(n / 10);
        let t = decimal(n / 10);
        assert(d == t.push(digit_char(n % 10, false)));
        assert(d.drop_last() =~= t);
        assert(all_digits(d)) by {
            assert forall|j: int| 0 <= j < d.len() implies is_digit(#[trigger] d[j]) by {
                if j < t.len() {
                    assert(t[j] == d[j]);
                }
            }
        }
    }
}

/// Keys with names have different ones.
pub proof fn named_keys_look_different(a: Key, b: Key)
    requires
        !(a is Char) && !(a is F),
        !(b is Char) && !(b is F),
        key_name(a) == key_name(b),
    ensures
        a == b,
{
    reveal_strlit("Enter");
    reveal_strlit("Tab");
    reveal_strlit("Bksp");
    reveal_strlit("Esc");
    reveal_strlit("Up");
    reveal_strlit("Down");
    reveal_strlit("Left");
    reveal_strlit("Right");
    reveal_strlit("Home");
    reveal_strlit("End");
    reveal_strlit("PgUp");
    reveal_strlit("PgDn");
    reveal_strlit("Ins");
    reveal_strlit("Del");
    assert("Enter"@.len() == 5 && "Enter"@[0] == 'E' && "Enter"@[1] == 'n' && "Enter"@[2] == 't');
    assert("Tab"@.len() == 3 && "Tab"@[0] == 'T' && "Tab"@[1] == 'a');
    assert("Bksp"@.len() == 4 && "Bksp"@[0] == 'B' && "Bksp"@[1] == 'k' && "Bksp"@[2] == 's');
    assert("Esc"@.len() == 3 && "Esc"@[0] == 'E' && "Esc"@[1] == 's');
    assert("Up"@.len() == 2 && "Up"@[0] == 'U' && "Up"@[1] == 'p');
    assert("Down"@.len() == 4 && "Down"@[0] == 'D' && "Down"@[1] == 'o' && "Down"@[2] == 'w');
    assert("Left"@.len() == 4 && "Left"@[0] == 'L' && "Left"@[1] == 'e' && "Left"@[2] == 'f');
    assert("Right"@.len() == 5 && "Right"@[0] == 'R' && "Right"@[1] == 'i' && "Right"@[2] == 'g');
    assert("Home"@.len() == 4 && "Home"@[0] == 'H' && "Home"@[1] == 'o' && "Home"@[2] == 'm');
    assert("End"@.len() == 3 && "End"@[0] == 'E' && "End"@[1] == 'n');
    assert("PgUp"@.len() == 4 && "PgUp"@[0] == 'P' && "PgUp"@[1] == 'g' && "PgUp"@[2] == 'U');
    assert("PgDn"@.len() == 4 && "PgDn"@[0] == 'P' && "PgDn"@[1] == 'g' && "PgDn"@[2] == 'D');
    assert("Ins"@.len() == 3 && "Ins"@[0] == 'I' && "Ins"@[1] == 'n');
    assert("Del"@.len() == 3 && "Del"@[0] == 'D' && "Del"@[1] == 'e');
    let (x, y) = (key_name(a), key_name(b));
    assert(x.len() == y.len() && x[0] == y[0] && x[1] == y[1]);
    if x.len() >= 4 {
        assert(x[2] == y[2]);
    }
}

/// Modifiers are named before the key: Ctrl, Alt and Shift, in that order.
pub proof fn modifiers_are_named_before_the_key(key: Key)
    ensures
        key_text(KeyEvent { key, mods: Mods(0) }) == key_name(key),
        key_text(KeyEvent { key, mods: Mods(CTRL_BIT) }) == seq!['C', '-'] + key_name(key),
        key_text(KeyEvent { key, mods: Mods(ALT_BIT) }) == seq!['A', '-'] + key_name(key),
        key_text(KeyEvent { key, mods: Mods(SHIFT_BIT) }) == seq!['S', '-'] + key_name(key),
        key_text(KeyEvent { key, mods: Mods(7) }) == seq!['C', '-', 'A', '-', 'S', '-'] + key_name(
            key,
        ),
{
    crate::input::lemma_single_mods();
    assert(7u8 & 1 == 1 && 7u8 & 2 == 2 && 7u8 & 4 == 4 && 4u8 & 1 != 1 && 2u8 & 1 != 1) by (bit_vector);
    reveal_strlit("C-");
    reveal_strlit("A-");
    reveal_strlit("S-");
    assert("C-"@ =~= seq!['C', '-']);
    assert("A-"@ =~= seq!['A', '-']);
    assert("S-"@ =~= seq!['S', '-']);
    let n = key_name(key);
    assert(key_text(KeyEvent { key, mods: Mods(0) }) =~= n);
    assert(key_text(KeyEvent { key, mods: Mods(CTRL_BIT) }) =~= seq!['C', '-'] + n);
    assert(key_text(KeyEvent { key, mods: Mods(ALT_BIT) }) =~= seq!['A', '-'] + n);
    assert(key_text(KeyEvent { key, mods: Mods(SHIFT_BIT) }) =~= seq!['S', '-'] + n);
    assert(key_text(KeyEvent { key, mods: Mods(7) }) =~= seq!['C', '-', 'A', '-', 'S', '-'] + n);
}

/// A byte that can be seen is shown as itself, any other by its two hexadecimal
/// digits, and each behind the ones before it.
pub proof fn bytes_are_shown_one_by_one(b: Seq<u8>, c: u8, hi: int, lo: int)
    requires
        0 <= hi < 16,
        0 <= lo < 16,
        c == 16 * hi + lo,
    ensures
        0x20 <= c <= 0x7e ==> bytes_text(b.push(c)) == bytes_text(b).push(c as char),
        !(0x20 <= c <= 0x7e) ==> bytes_text(b.push(c)) == bytes_text(b) + seq![
            '\\',
            'x',
            digit_char(hi, false),
            digit_char(lo, false),
        ],
{
    assert(b.push(c).drop_last() =~= b);
    reveal_strlit("\\x");
    assert("\\x"@ =~= seq!['\\', 'x']);
    reveal_with_fuel(numeral, 3);
    let n = numeral(c as int, 16, false);
    if hi == 0 {
        assert(n =~= seq![digit_char(lo, false)]);
        assert(digit_char(0, false) == '0');
        assert(padded_left(n, 2, '0') =~= seq!['0', digit_char(lo, false)]);
    } else {
        assert(c as int / 16 == hi && c as int % 16 == lo);
        assert(n =~= seq![digit_char(hi, false), digit_char(lo, false)]);
    }
    if 0x20 <= c <= 0x7e {
        assert(bytes_text(b.push(c)) =~= bytes_text(b).push(c as char));
    } else {
        assert(bytes_text(b.push(c)) =~= bytes_text(b) + seq![
            '\\',
            'x',
            digit_char(hi, false),
            digit_char(lo, false),
        ]);
    }
}

}
