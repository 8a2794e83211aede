//! Text: escaping and numbers.
use crate::wire::same_bytes;
use vstd::prelude::*;
use vstd::string::*;

verus! {

/// `String::push`: appends the character.
pub assume_specification[ String::push ](s: &mut String, c: char)
    ensures
        final(s)@ == old(s)@.push(c),
;

/// The optional text as a sequence of characters.
pub open spec fn opt_str(text: Option<&str>) -> Option<Seq<char>> {
    match text {
        Some(s) => Some(s@),
        None => None,
    }
}

/// The optional text as a sequence of characters.
pub open spec fn opt_text(text: Option<String>) -> Option<Seq<char>> {
    match text {
        Some(s) => Some(s@),
        None => None,
    }
}

/// The character of a hexadecimal digit.
pub open spec fn hex_digit(n: nat) -> char {
    if n < 10 {
        (48 + n) as char
    } else {
        (87 + n) as char
    }
}

/// The last four hexadecimal digits of a number.
pub open spec fn hex4(n: nat) -> Seq<char> {
    seq![
        hex_digit(n / 0x1000 % 0x10),
        hex_digit(n / 0x100 % 0x10),
        hex_digit(n / 0x10 % 0x10),
        hex_digit(n % 0x10),
    ]
}

/// Whether a character is a control character.
pub open spec fn is_control(c: char) -> bool {
    c as u32 <= 0x1f || 0x7f <= c as u32 <= 0x9f
}

/// A character within a JSON string.
pub open spec fn escape_char(c: char) -> Seq<char> {
    if c == '"' {
        seq!['\\', '"']
    } else if c == '\\' {
        seq!['\\', '\\']
    } else if c == '\n' {
        seq!['\\', 'n']
    } else if c == '\r' {
        seq!['\\', 'r']
    } else if c == '\t' {
        seq!['\\', 't']
    } else if is_control(c) {
        seq!['\\', 'u'] + hex4(c as u32 as nat)
    } else {
        seq![c]
    }
}

/// A text within a JSON string.
pub open spec fn escaped(s: Seq<char>) -> Seq<char>
    decreases s.len(),
{
    if s.len() == 0 {
        Seq::empty()
    } else {
        escaped(s.drop_last()) + escape_char(s.last())
    }
}

/// The character of a hexadecimal digit.
fn hex_char(n: u8) -> (c: char)
    requires
        n < 16,
    ensures
        c == hex_digit(n as nat),
{
    if n < 10 {
        (48 + n) as char
    } else {
        (87 + n) as char
    }
}

/// Escapes a text for use within a JSON string: quotes, backslashes and
/// control characters.
pub fn escape_json_string(s: &str) -> (out: String)
    ensures
        out@ == escaped(s@),
{
    let mut out = String::new();
    for ch in it: s.chars()
        invariant
            it.seq() == s@,
            out@ == escaped(s@.take(it.index())),
    {
        let ghost n = it.index();
        let ghost before = out@;
        proof {
            assert(s@.take(n + 1).drop_last() =~= s@.take(n));
            assert(s@.take(n + 1).last() == ch);
        }
        let code: u32 = ch as u32;
        if ch == '"' {
            out.push('\\');
            out.push('"');
        } else if ch == '\\' {
            out.push('\\');
            out.push('\\');
        } else if ch == '\n' {
            out.push('\\');
            out.push('n');
        } else if ch == '\r' {
            out.push('\\');
            out.push('r');
        } else if ch == '\t' {
            out.push('\\');
            out.push('t');
        } else if code <= 0x1f || (0x7f <= code && code <= 0x9f) {
            out.push('\\');
            out.push('u');
            out.push('0');
            out.push('0');
            out.push(hex_char((code / 0x10) as u8));
            out.push(hex_char((code % 0x10) as u8));
        } else {
            out.push(ch);
        }
        assert(out@ =~= before + escape_char(ch));
    }
    assert(s@.take(s@.len() as int) =~= s@);
    out
}

/// Whether two texts are the same.
pub fn same_text(a: &str, b: &str) -> (same: bool)
    ensures
        same == (a@ == b@),
{
    proof {
        vstd::utf8::encode_utf8_decode_utf8(a@);
        vstd::utf8::encode_utf8_decode_utf8(b@);
    }
    same_bytes(a.as_bytes(), b.as_bytes())
}

/// The character of a decimal digit.
pub open spec fn digit(n: nat) -> char {
    (48 + n % 10) as char
}

/// A number in decimal notation.
pub open spec fn decimal(n: nat) -> Seq<char>
    decreases n,
{
    if n < 10 {
        seq![digit(n)]
    } else {
        decimal(n / 10).push(digit(n))
    }
}

/// Appends a number in decimal notation.
pub fn push_decimal(out: &mut String, n: u128)
    ensures
        final(out)@ == old(out)@ + decimal(n as nat),
    decreases n,
{
    if n >= 10 {
        push_decimal(out, n / 10);
    }
    let ghost before = out@;
    out.push((48 + (n % 10) as u8) as char);
    proof {
        if n >= 10 {
            assert(out@ =~= old(out)@ + decimal(n as nat / 10).push(digit(n as nat)));
        } else {
            assert(out@ =~= old(out)@ + seq![digit(n as nat)]);
        }
    }
}

//------------ Reading escaped text ------------------------------------------

/// The number that a hexadecimal digit stands for, if the character is one.
pub open spec fn hex_value(c: char) -> Option<nat> {
    if '0' <= c <= '9' {
        Some((c as u32 - 48) as nat)
    } else if 'a' <= c <= 'f' {
        Some((c as u32 - 87) as nat)
    } else if 'A' <= c <= 'F' {
        Some((c as u32 - 55) as nat)
    } else {
        None
    }
}

/// The number that four hexadecimal digits stand for.
pub open spec fn hex4_value(t: Seq<char>) -> Option<nat> {
    match (hex_value(t[0]), hex_value(t[1]), hex_value(t[2]), hex_value(t[3])) {
        (Some(a), Some(b), Some(c), Some(d)) => Some(a * 0x1000 + b * 0x100 + c * 0x10 + d),
        _ => None,
    }
}

/// The first character that the inside of a JSON string stands for, and how
/// many characters it takes up. A quote, a control character below the space
/// and an unfinished escape stand for none. Of the escapes by number only those
/// of single characters are read.
pub open spec fn read_char(t: Seq<char>) -> Option<(char, int)> {
    if t.len() == 0 || t[0] == '"' || (t[0] as u32) < 0x20u32 {
        None
    } else if t[0] != '\\' {
        Some((t[0], 1))
    } else if t.len() <= 1 {
        None
    } else if t[1] == '"' || t[1] == '\\' {
        Some((t[1], 2))
    } else if t[1] == 'n' {
        Some(('\n', 2))
    } else if t[1] == 'r' {
        Some(('\r', 2))
    } else if t[1] == 't' {
        Some(('\t', 2))
    } else if t[1] == 'u' && t.len() >= 6 {
        match hex4_value(t.subrange(2, 6)) {
            Some(n) => if 0xd800 <= n <= 0xdfff {
                None
            } else {
                Some((n as u32 as char, 6))
            },
            None => None,
        }
    } else {
        None
    }
}

/// The text that the inside of a JSON string stands for.
pub open spec fn read_text(t: Seq<char>) -> Option<Seq<char>>
    decreases t.len(),
{
    if t.len() == 0 {
        Some(Seq::empty())
    } else {
        match read_char(t) {
            Some((c, n)) => if 0 < n <= t.len() {
                match read_text(t.skip(n)) {
                    Some(rest) => Some(seq![c] + rest),
                    None => None,
                }
            } else {
                None
            },
            None => None,
        }
    }
}

proof fn escaped_from_the_front(c: char, s: Seq<char>)
    ensures
        escaped(seq![c] + s) == escape_char(c) + escaped(s),
    decreases s.len(),
{
    let all = seq![c] + s;
    if s.len() == 0 {
        assert(all.drop_last() =~= Seq::empty());
        assert(all.last() == c);
        assert(escaped(all.drop_last()) =~= Seq::empty());
        assert(escape_char(c) + escaped(s) =~= escape_char(c));
        assert(escaped(all) =~= escape_char(c));
    } else {
        escaped_from_the_front(c, s.drop_last());
        assert(all.drop_last() =~= seq![c] + s.drop_last());
        assert(escaped(all) =~= escape_char(c) + escaped(s));
    }
}

proof fn hex_digit_is_read(n: nat)
    requires
        n < 16,
    ensures
        hex_value(hex_digit(n)) == Some(n),
{
    if n < 10 {
        assert(hex_digit(n) as u32 == 48 + n);
    } else {
        assert(hex_digit(n) as u32 == 87 + n);
    }
}

proof fn escaped_char_is_read(c: char, rest: Seq<char>)
    ensures
        read_char(escape_char(c) + rest) == Some((c, escape_char(c).len() as int)),
{
    let t = escape_char(c) + rest;
    let n = c as u32 as nat;
    if c != '"' && c != '\\' && c != '\n' && c != '\r' && c != '\t' && is_control(c) {
        assert(t.subrange(2, 6) =~= hex4(n));
        hex_digit_is_read(n / 0x1000 % 0x10);
        hex_digit_is_read(n / 0x100 % 0x10);
        hex_digit_is_read(n / 0x10 % 0x10);
        hex_digit_is_read(n % 0x10);
        assert(n / 0x1000 % 0x10 * 0x1000 + n / 0x100 % 0x10 * 0x100 + n / 0x10 % 0x10 * 0x10 + n
            % 0x10 == n);
        assert(hex4_value(t.subrange(2, 6)) == Some(n));
        assert(t[0] == '\\' && t[1] == 'u');
    } else if t[0] != '\\' {
        assert(t[0] == c);
    }
}

/// Escaping loses nothing: within a JSON string, an escaped text stands for the
/// text. It ends the string nowhere and holds no bare control character.
pub proof fn escaped_text_is_read_back(s: Seq<char>)
    ensures
        read_text(escaped(s)) == Some(s),
    decreases s.len(),
{
    if s.len() > 0 {
        let c = s[0];
        let rest = s.skip(1);
        assert(s =~= seq![c] + rest);
        escaped_from_the_front(c, rest);
        escaped_char_is_read(c, escaped(rest));
        let t = escaped(s);
        assert(t.skip(escape_char(c).len() as int) =~= escaped(rest));
        escaped_text_is_read_back(rest);
    }
}

} // verus!
