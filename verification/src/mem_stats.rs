//! Process-wide memory accounting, for leak hunting.
//!
//! Reading the process table and the system's page size is left to the caller.
use crate::text::{decimal, digit, push_decimal};
use crate::wire::capped;
use vstd::arithmetic::div_mod::lemma_fundamental_div_mod;
use vstd::arithmetic::power2::{
    lemma2_to64, lemma_pow2_adds, lemma_pow2_pos, lemma_pow2_strictly_increases, pow2,
};
use vstd::prelude::*;
use vstd::string::*;

verus! {

//------------ Rounding ------------------------------------------------------

/// `a / b` rounded to the nearest number, to the even one of two equally near.
pub open spec fn nearest(a: nat, b: nat) -> nat {
    let q = a / b;
    let r = a % b;
    if 2 * r > b || (2 * r == b && q % 2 == 1) {
        (q + 1) as nat
    } else {
        q
    }
}

/// `a / b` rounded to the nearest number, to the even one of two equally near.
fn div_nearest(a: u128, b: u128) -> (q: u128)
    requires
        0 < b <= 0x4000_0000_0000_0000_0000_0000_0000_0000,
        a <= 0x4000_0000_0000_0000_0000_0000_0000_0000,
    ensures
        q == nearest(a as nat, b as nat),
        q <= a / b + 1,
{
    let q: u128 = a / b;
    let r: u128 = a % b;
    assert(q <= a) by (nonlinear_arith)
        requires
            q == a / b,
            b > 0,
    ;
    if 2 * r > b || (2 * r == b && q % 2 == 1) {
        q + 1
    } else {
        q
    }
}

/// The number of values that the significand of a double takes.
pub const SIGNIFICAND: u128 = 0x20_0000_0000_0000;

/// The distance of two neighboring doubles around a number, starting from `p`.
pub open spec fn spacing_from(n: nat, p: nat) -> nat
    decreases
            (if n >= SIGNIFICAND * p {
                n - SIGNIFICAND * p + 1
            } else {
                0
            }),
{
    if p == 0 || n < SIGNIFICAND * p {
        p
    } else {
        spacing_from(n, 2 * p)
    }
}

/// The double nearest to a number.
pub open spec fn to_double(n: nat) -> nat {
    let p = spacing_from(n, 1);
    nearest(n, p) * p
}

/// The double nearest to a number.
fn nearest_double(n: u64) -> (f: u128)
    ensures
        f == to_double(n as nat),
        f <= 0x1_0000_0000_0000_0000,
        n < SIGNIFICAND ==> f == n,
        f + 2048 >= n,
{
    let wide: u128 = n as u128;
    let mut p: u128 = 1;
    while wide >= SIGNIFICAND * p
        invariant
            wide == n,
            is_spacing(p),
            spacing_from(n as nat, 1) == spacing_from(n as nat, p as nat),
            p > 1 ==> wide >= SIGNIFICAND,
        decreases 4096 - p,
    {
        p = 2 * p;
    }
    let q: u128 = div_nearest(wide, p);
    proof {
        assert(p == 1 ==> q == wide);
        assert(1 <= p <= 2048);
        assert(wide / p < SIGNIFICAND) by (nonlinear_arith)
            requires
                wide < SIGNIFICAND * p,
                p > 0,
        ;
        assert(q * p <= SIGNIFICAND * p) by (nonlinear_arith)
            requires
                q <= SIGNIFICAND,
                p > 0,
        ;
        assert(q * p + p >= wide) by (nonlinear_arith)
            requires
                q >= wide / p,
                p > 0,
        ;
    }
    q * p
}

/// The distances that doubles of this size can have.
spec fn is_spacing(p: u128) -> bool {
    p == 1 || p == 2 || p == 4 || p == 8 || p == 16 || p == 32 || p == 64 || p == 128 || p == 256
        || p == 512 || p == 1024 || p == 2048
}

/// The first power of two, from `s` on, that brings a number up to a goal. The
/// number times `s` is `scaled`.
pub open spec fn scale_from(scaled: nat, goal: nat, s: nat) -> nat
    decreases
            (if scaled < goal {
                goal - scaled
            } else {
                0
            }),
{
    if scaled == 0 || scaled >= goal {
        s
    } else {
        scale_from(2 * scaled, goal, 2 * s)
    }
}

/// The quotient of two doubles, rounded to a double, times a power of ten and
/// rounded to the nearest number: its digits up to a decimal place.
pub open spec fn quotient_digits(f: nat, d: nat, power: nat) -> nat {
    let s = scale_from(f, (SIGNIFICAND / 2) as nat * d, 1);
    nearest(nearest(f * s, d) * power, s)
}

/// The digits of the quotient of two doubles up to a decimal place.
fn divide_doubles(f: u128, d: u128, power: u128) -> (digits: u128)
    requires
        1000 <= d <= 1_000_000_000,
        d <= f <= 0x1_0000_0000_0000_0000,
        1 <= power <= 100,
    ensures
        digits == quotient_digits(f as nat, d as nat, power as nat),
{
    let goal: u128 = 0x10_0000_0000_0000 * d;
    let mut scaled: u128 = f;
    let mut s: u128 = 1;
    while scaled < goal
        invariant
            1000 <= d <= 1_000_000_000,
            d <= f <= 0x1_0000_0000_0000_0000,
            goal == 0x10_0000_0000_0000 * d,
            scaled == f * s,
            1 <= s <= 0x20_0000_0000_0000,
            scaled <= 0x4000_0000_0000_0000_0000_0000,
            scale_from(f as nat, goal as nat, 1) == scale_from(
                scaled as nat,
                goal as nat,
                s as nat,
            ),
        decreases 0x20_0000_0000_0000 - s,
    {
        assert(s < 0x10_0000_0000_0000) by (nonlinear_arith)
            requires
                f * s < 0x10_0000_0000_0000 * d,
                1000 <= d <= f,
                1 <= s,
        ;
        assert(f * (2 * s) == 2 * (f * s)) by (nonlinear_arith);
        assert(scaled > 0) by (nonlinear_arith)
            requires
                scaled == f * s,
                f >= 1,
                s >= 1,
        ;
        scaled = 2 * scaled;
        s = 2 * s;
    }
    let m: u128 = div_nearest(scaled, d);
    assert(scaled / d <= scaled) by (nonlinear_arith)
        requires
            d >= 1,
    ;
    assert(m * power <= 0x4000_0000_0000_0000_0000_0000_0000) by (nonlinear_arith)
        requires
            m <= 0x4000_0000_0000_0000_0000_0001,
            1 <= power <= 100,
    ;
    div_nearest(m * power, s)
}

//------------ Numbers for people --------------------------------------------

/// A number of hundredths with two decimal places.
pub open spec fn with_hundredths(n: nat) -> Seq<char> {
    decimal(n / 100) + seq!['.', digit(n / 10), digit(n)]
}

/// A number of tenths with one decimal place.
pub open spec fn with_tenths(n: nat) -> Seq<char> {
    decimal(n / 10) + seq!['.', digit(n)]
}

/// Appends a number of hundredths with two decimal places.
fn push_hundredths(out: &mut String, n: u128)
    ensures
        final(out)@ == old(out)@ + with_hundredths(n as nat),
{
    push_decimal(out, n / 100);
    out.push('.');
    out.push((48 + (n / 10 % 10) as u8) as char);
    out.push((48 + (n % 10) as u8) as char);
    assert(out@ =~= old(out)@ + with_hundredths(n as nat));
}

/// Writes a number of tenths with one decimal place.
fn push_tenths(out: &mut String, n: u128)
    ensures
        final(out)@ == old(out)@ + with_tenths(n as nat),
{
    push_decimal(out, n / 10);
    out.push('.');
    out.push((48 + (n % 10) as u8) as char);
    assert(out@ =~= old(out)@ + with_tenths(n as nat));
}

/// The number of octets that a unit stands for.
pub open spec fn unit_size(unit: nat) -> nat {
    if unit == 0 {
        1
    } else if unit == 1 {
        0x400
    } else if unit == 2 {
        0x10_0000
    } else if unit == 3 {
        0x4000_0000
    } else {
        0x100_0000_0000
    }
}

/// The name of a unit.
pub open spec fn unit_name(unit: nat) -> Seq<char> {
    if unit == 0 {
        "B"@
    } else if unit == 1 {
        "KiB"@
    } else if unit == 2 {
        "MiB"@
    } else if unit == 3 {
        "GiB"@
    } else {
        "TiB"@
    }
}

/// The largest unit of which there is at least one, taken of the double nearest
/// to a number.
pub open spec fn unit_for(n: nat) -> nat {
    let f = to_double(n);
    if f < 0x400 {
        0
    } else if f < 0x10_0000 {
        1
    } else if f < 0x4000_0000 {
        2
    } else if f < 0x100_0000_0000 {
        3
    } else {
        4
    }
}

/// A number of octets for people: in the largest unit of which there is at least
/// one, with two decimal places; octets themselves without.
pub open spec fn bytes_text(n: nat) -> Seq<char> {
    if unit_for(n) == 0 {
        decimal(n) + " B"@
    } else {
        with_hundredths(nearest(to_double(n) * 100, unit_size(unit_for(n)))) + " "@ + unit_name(
            unit_for(n),
        )
    }
}

/// Writes a number of octets for people, as in `8.30 GiB`.
pub fn fmt_bytes(n: usize) -> (text: String)
    ensures
        text@ == bytes_text(n as nat),
{
    let mut out = String::new();
    let f: u128 = nearest_double(n as u64);
    if f < 0x400 {
        push_decimal(&mut out, n as u128);
        out.append(" B");
        assert(out@ =~= bytes_text(n as nat));
    } else if f < 0x10_0000 {
        push_hundredths(&mut out, div_nearest(f * 100, 0x400));
        out.append(" ");
        out.append("KiB");
        assert(out@ =~= bytes_text(n as nat));
    } else if f < 0x4000_0000 {
        push_hundredths(&mut out, div_nearest(f * 100, 0x10_0000));
        out.append(" ");
        out.append("MiB");
        assert(out@ =~= bytes_text(n as nat));
    } else if f < 0x100_0000_0000 {
        push_hundredths(&mut out, div_nearest(f * 100, 0x4000_0000));
        out.append(" ");
        out.append("GiB");
        assert(out@ =~= bytes_text(n as nat));
    } else {
        push_hundredths(&mut out, div_nearest(f * 100, 0x100_0000_0000));
        out.append(" ");
        out.append("TiB");
        assert(out@ =~= bytes_text(n as nat));
    }
    out
}

/// A number of millions for people: with two decimal places, or with one where
/// there are three digits before the point.
pub open spec fn millions_text(n: nat) -> Seq<char> {
    let hundredths = quotient_digits(to_double(n), 1_000_000, 100);
    if hundredths >= 100_00 {
        with_tenths(quotient_digits(to_double(n), 1_000_000, 10))
    } else {
        with_hundredths(hundredths)
    }
}

/// A count for people: in thousands with one decimal place, in millions with
/// two or one, in billions with two, or as it is below a thousand.
pub open spec fn count_text(n: nat) -> Seq<char> {
    if n >= 1_000_000_000 {
        with_hundredths(quotient_digits(to_double(n), 1_000_000_000, 100)) + "G"@
    } else if n >= 1_000_000 {
        millions_text(n) + "M"@
    } else if n >= 1_000 {
        with_tenths(quotient_digits(to_double(n), 1_000, 10)) + "k"@
    } else {
        decimal(n)
    }
}

/// Writes a count for people, as in `305.0M`, `1.50M` or `45.0k`.
pub fn fmt_count(n: usize) -> (text: String)
    ensures
        text@ == count_text(n as nat),
{
    let mut out = String::new();
    let f: u128 = nearest_double(n as u64);
    if n >= 1_000_000_000 {
        push_hundredths(&mut out, divide_doubles(f, 1_000_000_000, 100));
        out.append("G");
    } else if n >= 1_000_000 {
        let hundredths: u128 = divide_doubles(f, 1_000_000, 100);
        if hundredths >= 100_00 {
            push_tenths(&mut out, divide_doubles(f, 1_000_000, 10));
        } else {
            push_hundredths(&mut out, hundredths);
        }
        out.append("M");
    } else if n >= 1_000 {
        push_tenths(&mut out, divide_doubles(f, 1_000, 10));
        out.append("k");
    } else {
        push_decimal(&mut out, n as u128);
    }
    assert(out@ =~= count_text(n as nat));
    out
}

//------------ Counters ------------------------------------------------------

/// What the buffers of all connected consumers amount to.
#[derive(Clone, Copy, Debug, PartialEq, Eq, Structural)]
pub struct BmpOutCounters {
    pub clients: usize,
    pub buffered_bytes: usize,
    pub buffered_entries: usize,
}

/// A counter after something that it counts was replaced. It wraps around.
pub open spec fn replaced(counter: usize, before: usize, after: usize) -> usize {
    vstd::wrapping::usize_specs::wrapping_add(
        vstd::wrapping::usize_specs::wrapping_sub(counter, before),
        after,
    )
}

impl BmpOutCounters {
    /// The counters after an update of this charge was buffered.
    pub open spec fn with_update(self, size: usize) -> BmpOutCounters {
        BmpOutCounters {
            buffered_entries: replaced(self.buffered_entries, 0, 1),
            buffered_bytes: replaced(self.buffered_bytes, 0, size),
            ..self
        }
    }

    /// Counts a consumer that connected. Its buffer is empty.
    pub fn client_joined(&mut self)
        ensures
            *final(self) == (BmpOutCounters {
                clients: replaced(old(self).clients, 0, 1),
                ..*old(self)
            }),
    {
        self.clients = self.clients.wrapping_add(1);
    }

    /// Counts an update of this charge that was buffered.
    pub fn update_buffered(&mut self, size: usize)
        ensures
            *final(self) == old(self).with_update(size),
    {
        self.buffered_entries = self.buffered_entries.wrapping_add(1);
        self.buffered_bytes = self.buffered_bytes.wrapping_add(size);
    }

    /// Follows the buffer of one consumer, given how many updates it held
    /// before and holds now, and what they are charged.
    pub fn buffer_changed(&mut self, before: (usize, usize), after: (usize, usize))
        ensures
            *final(self) == (BmpOutCounters {
                buffered_entries: replaced(old(self).buffered_entries, before.0, after.0),
                buffered_bytes: replaced(old(self).buffered_bytes, before.1, after.1),
                ..*old(self)
            }),
    {
        self.buffered_entries = self.buffered_entries.wrapping_sub(before.0).wrapping_add(after.0);
        self.buffered_bytes = self.buffered_bytes.wrapping_sub(before.1).wrapping_add(after.1);
    }

    /// Counts a consumer out, with what its buffer holds.
    pub fn client_left(&mut self, buffered: (usize, usize))
        ensures
            *final(self) == (BmpOutCounters {
                clients: replaced(old(self).clients, 1, 0),
                buffered_entries: replaced(old(self).buffered_entries, buffered.0, 0),
                buffered_bytes: replaced(old(self).buffered_bytes, buffered.1, 0),
            }),
    {
        self.buffer_changed(buffered, (0, 0));
        self.clients = self.clients.wrapping_sub(1);
    }
}

/// The counters at one moment.
#[derive(Clone, Copy, Debug, PartialEq, Eq, Structural)]
pub struct BmpOutSnapshot {
    pub clients: usize,
    pub buffered_bytes: usize,
    pub buffered_entries: usize,
}

/// What the counters are at one moment.
pub open spec fn snapshot_of(counters: BmpOutCounters) -> BmpOutSnapshot {
    BmpOutSnapshot {
        clients: counters.clients,
        buffered_bytes: counters.buffered_bytes,
        buffered_entries: counters.buffered_entries,
    }
}

/// Takes the counters at this moment.
pub fn bmp_out_snapshot(counters: &BmpOutCounters) -> (snapshot: BmpOutSnapshot)
    ensures
        snapshot == snapshot_of(*counters),
{
    BmpOutSnapshot {
        clients: counters.clients,
        buffered_bytes: counters.buffered_bytes,
        buffered_entries: counters.buffered_entries,
    }
}

//------------ Resident set --------------------------------------------------

/// Whether a character separates words.
pub open spec fn is_space(c: char) -> bool {
    let n = c as u32;
    (9 <= n <= 13) || n == 0x20 || n == 0x85 || n == 0xa0 || n == 0x1680 || (0x2000 <= n <= 0x200a)
        || n == 0x2028 || n == 0x2029 || n == 0x202f || n == 0x205f || n == 0x3000
}

fn check_space(c: char) -> (yes: bool)
    ensures
        yes == is_space(c),
{
    let n: u32 = c as u32;
    (9 <= n && n <= 13) || n == 0x20 || n == 0x85 || n == 0xa0 || n == 0x1680 || (0x2000 <= n && n
        <= 0x200a) || n == 0x2028 || n == 0x2029 || n == 0x202f || n == 0x205f || n == 0x3000
}

/// The words of a text up to its end, given the word that is being read.
pub open spec fn words_from(text: Seq<char>, word: Seq<char>) -> Seq<Seq<char>>
    decreases text.len(),
{
    if text.len() == 0 {
        if word.len() == 0 {
            Seq::empty()
        } else {
            seq![word]
        }
    } else if is_space(text[0]) {
        if word.len() == 0 {
            words_from(text.skip(1), Seq::empty())
        } else {
            seq![word] + words_from(text.skip(1), Seq::empty())
        }
    } else {
        words_from(text.skip(1), word.push(text[0]))
    }
}

/// The words of a text.
pub open spec fn words(text: Seq<char>) -> Seq<Seq<char>> {
    words_from(text, Seq::empty())
}

/// Whether a character is a decimal digit.
pub open spec fn is_digit(c: char) -> bool {
    48 <= c as u32 <= 57
}

/// The number that digits stand for.
pub open spec fn number_of(digits: Seq<char>) -> nat
    decreases digits.len(),
{
    if digits.len() == 0 {
        0
    } else {
        (number_of(digits.drop_last()) * 10 + (digits.last() as u32 - 48)) as nat
    }
}

/// A word without a leading plus sign.
pub open spec fn unsigned_part(word: Seq<char>) -> Seq<char> {
    if word.len() > 0 && word[0] == '+' {
        word.skip(1)
    } else {
        word
    }
}

/// Whether a text consists of digits.
pub open spec fn all_digits(text: Seq<char>) -> bool {
    forall|i: int| 0 <= i < text.len() ==> is_digit(#[trigger] text[i])
}

/// The number that a word stands for, if it is one that fits: digits, with or
/// without a plus sign.
pub open spec fn parsed_number(word: Seq<char>) -> Option<nat> {
    if unsigned_part(word).len() > 0 && all_digits(unsigned_part(word)) && number_of(
        unsigned_part(word),
    ) <= usize::MAX {
        Some(number_of(unsigned_part(word)))
    } else {
        None
    }
}

/// The size of a page: what the system says, if that makes sense.
pub fn page_size(reported: i64) -> (size: usize)
    ensures
        size == if 0 < reported <= usize::MAX {
            reported as usize
        } else {
            4096
        },
{
    if reported > 0 && reported as u64 <= usize::MAX as u64 {
        reported as usize
    } else {
        4096
    }
}

/// The characters of a text.
fn chars_of(text: &str) -> (chars: Vec<char>)
    ensures
        chars@ == text@,
{
    let mut chars: Vec<char> = Vec::new();
    for c in it: text.chars()
        invariant
            it.seq() == text@,
            chars@ == text@.take(it.index()),
    {
        chars.push(c);
        assert(chars@ =~= text@.take(it.index() + 1));
    }
    assert(text@.take(text@.len() as int) =~= text@);
    chars
}

/// The second word of a text.
fn second_word(text: &Vec<char>) -> (word: Option<Vec<char>>)
    ensures
        match word {
            Some(w) => words(text@).len() >= 2 && w@ == words(text@)[1],
            None => words(text@).len() < 2,
        },
{
    let mut before: usize = 0;
    let mut word: Vec<char> = Vec::new();
    let ghost mut done: Seq<Seq<char>> = Seq::empty();
    let mut i: usize = 0;
    proof {
        assert(text@.skip(0) =~= text@);
        assert(word@ =~= Seq::empty());
        assert(done + words(text@) =~= words(text@));
    }
    while i < text.len()
        invariant
            i <= text@.len(),
            before == done.len(),
            before <= 1,
            words(text@) == done + words_from(text@.skip(i as int), word@),
        decreases text@.len() - i,
    {
        let c: char = text[i];
        let ghost rest = text@.skip(i as int);
        proof {
            assert(rest[0] == c);
            assert(rest.skip(1) =~= text@.skip(i + 1));
        }
        if check_space(c) {
            if word.len() > 0 {
                if before == 1 {
                    assert(words(text@)[1] == word@);
                    return Some(word);
                }
                proof {
                    let w = word@;
                    let more = words_from(text@.skip(i + 1), Seq::empty());
                    assert(done + (seq![w] + more) =~= done.push(w) + more);
                    done = done.push(w);
                }
                before = 1;
                word = Vec::new();
                assert(word@ =~= Seq::empty());
            } else {
                assert(word@ =~= Seq::empty());
            }
        } else {
            word.push(c);
        }
        i += 1;
    }
    assert(text@.skip(i as int) =~= Seq::empty());
    if before == 1 && word.len() > 0 {
        assert(words(text@)[1] == word@);
        Some(word)
    } else {
        None
    }
}

/// Reads a number.
fn parse_number(word: &Vec<char>) -> (n: Option<usize>)
    ensures
        match n {
            Some(n) => parsed_number(word@) == Some(n as nat),
            None => parsed_number(word@) is None,
        },
{
    let start: usize = if word.len() > 0 && word[0] == '+' {
        1
    } else {
        0
    };
    let ghost digits = word@.skip(start as int);
    assert(word@.skip(0) =~= word@);
    if start == word.len() {
        return None;
    }
    let mut n: usize = 0;
    let mut i: usize = start;
    assert(digits.take(0) =~= Seq::empty());
    while i < word.len()
        invariant
            start <= i <= word@.len(),
            digits == word@.skip(start as int),
            digits == unsigned_part(word@),
            n == number_of(digits.take(i - start)),
            forall|j: int| 0 <= j < i - start ==> is_digit(#[trigger] digits[j]),
        decreases word@.len() - i,
    {
        let ch: char = word[i];
        let c: u32 = ch as u32;
        assert(digits[i - start] == ch);
        if c < 48 || c > 57 {
            assert(!is_digit(digits[i - start]));
            return None;
        }
        let ghost t = digits.take(i - start + 1);
        proof {
            assert(t.drop_last() =~= digits.take(i - start));
            assert(t.last() == word@[i as int]);
        }
        let d: usize = (c - 48) as usize;
        let next = match n.checked_mul(10) {
            Some(m) => m.checked_add(d),
            None => None,
        };
        n = match next {
            Some(m) => m,
            None => {
                proof {
                    number_grows(digits, i - start + 1);
                    assert(number_of(t) > usize::MAX);
                }
                return None;
            },
        };
        i += 1;
    }
    assert(digits.take(i - start) =~= digits);
    Some(n)
}

/// More digits do not make a number smaller.
proof fn number_grows(digits: Seq<char>, n: int)
    requires
        0 <= n <= digits.len(),
    ensures
        all_digits(digits) ==> number_of(digits.take(n)) <= number_of(digits),
    decreases digits.len() - n,
{
    if n == digits.len() {
        assert(digits.take(n) =~= digits);
    } else {
        number_grows(digits, n + 1);
        assert(digits.take(n + 1).drop_last() =~= digits.take(n));
        if all_digits(digits) {
            assert(is_digit(digits[n]));
        }
    }
}

/// The resident set size in octets, from the process's line of page counts and
/// the size of a page. The second count is that of resident pages.
pub fn resident_bytes(statm: &str, page_size: usize) -> (bytes: Option<usize>)
    ensures
        match bytes {
            Some(n) => words(statm@).len() >= 2 && parsed_number(words(statm@)[1]) is Some && n
                == capped((parsed_number(words(statm@)[1])->0 * page_size) as nat),
            None => words(statm@).len() < 2 || parsed_number(words(statm@)[1]) is None,
        },
{
    let chars = chars_of(statm);
    match second_word(&chars) {
        Some(word) => match parse_number(&word) {
            Some(pages) => match pages.checked_mul(page_size) {
                Some(n) => Some(n),
                None => Some(usize::MAX),
            },
            None => None,
        },
        None => None,
    }
}

/// The resident set size in octets, from the process's line of page counts and
/// what the system reports as the size of a page. There is none if the line
/// could not be read.
pub fn read_rss_bytes(statm: Option<&str>, reported_page_size: i64) -> (bytes: Option<usize>)
    ensures
        statm is None ==> bytes is None,
        statm matches Some(line) ==> bytes == match (words(line@).len() >= 2, parsed_number(
            words(line@)[1],
        )) {
            (true, Some(pages)) => Some(
                capped(
                    pages * (if 0 < reported_page_size <= usize::MAX {
                        reported_page_size as nat
                    } else {
                        4096nat
                    }),
                ) as usize,
            ),
            _ => None,
        },
{
    match statm {
        Some(line) => resident_bytes(line, page_size(reported_page_size)),
        None => None,
    }
}

//------------ Laws ----------------------------------------------------------

/// Rounding is to the nearest: the rounded quotient is at most half a divisor
/// away, and where it is just that, it is even.
pub proof fn rounding_is_to_the_nearest(a: nat, b: nat)
    requires
        b > 0,
    ensures
        2 * (nearest(a, b) * b - a) <= b,
        2 * (a - nearest(a, b) * b) <= b,
        2 * (nearest(a, b) * b - a) == b || 2 * (a - nearest(a, b) * b) == b ==> nearest(a, b) % 2
            == 0,
{
    let q = a / b;
    let r = a % b;
    lemma_fundamental_div_mod(a as int, b as int);
    assert(b * q == q * b) by (nonlinear_arith);
    assert((q + 1) * b == q * b + b) by (nonlinear_arith);
    assert(a == q * b + r);
}

proof fn spacing_is_right(n: nat, p: nat, k: nat)
    requires
        p == pow2(k),
        p == 1 || 2 * n >= SIGNIFICAND * p,
    ensures
        n < SIGNIFICAND * spacing_from(n, p),
        spacing_from(n, p) == 1 || 2 * n >= SIGNIFICAND * spacing_from(n, p),
        exists|j: nat| spacing_from(n, p) == #[trigger] pow2(j),
    decreases
            (if n >= SIGNIFICAND * p {
                n - SIGNIFICAND * p + 1
            } else {
                0
            }),
{
    lemma_pow2_pos(k);
    if n >= SIGNIFICAND * p {
        lemma_pow2_adds(1, k);
        lemma2_to64();
        assert(pow2(1 + k) == 2 * p);
        assert(SIGNIFICAND * (2 * p) == 2 * (SIGNIFICAND * p)) by (nonlinear_arith);
        assert(SIGNIFICAND * p >= 1) by (nonlinear_arith)
            requires
                p >= 1,
                SIGNIFICAND >= 1,
        ;
        spacing_is_right(n, 2 * p, 1 + k);
    }
}

/// The double nearest to a number is a significand of at most 53 bits, or the
/// number after the last such, times a power of two; it is at most half that
/// power away from the number; and the power is no larger than it has to be. A
/// number of up to 53 bits is its own.
pub proof fn double_is_the_nearest(n: nat) -> (res: (nat, nat))
    ensures
        to_double(n) == res.0 * pow2(res.1),
        res.0 <= 0x20_0000_0000_0000,
        2 * (to_double(n) - n) <= pow2(res.1),
        2 * (n - to_double(n)) <= pow2(res.1),
        res.1 == 0 || 2 * n >= 0x20_0000_0000_0000 * pow2(res.1),
        n < 0x20_0000_0000_0000 ==> to_double(n) == n,
{
    lemma2_to64();
    spacing_is_right(n, 1, 0);
    let p = spacing_from(n, 1);
    let k = choose|j: nat| p == #[trigger] pow2(j);
    lemma_pow2_pos(k);
    rounding_is_to_the_nearest(n, p);
    let m = nearest(n, p);
    assert(m <= 0x20_0000_0000_0000) by (nonlinear_arith)
        requires
            2 * (m * p - n) <= p,
            n < 0x20_0000_0000_0000 * p,
            p > 0,
    ;
    if n < 0x20_0000_0000_0000 {
        assert(p == 1);
        assert(n / 1 == n && n % 1 == 0);
        assert(m * 1 == m);
    }
    if k != 0 && p == 1 {
        lemma_pow2_strictly_increases(0, k);
    }
    (m, k)
}

/// A number in decimal notation is read back: it consists of digits, without a
/// zero in front unless it is zero, and they stand for the number.
pub proof fn decimal_is_read_back(n: nat)
    ensures
        decimal(n).len() > 0,
        all_digits(decimal(n)),
        number_of(decimal(n)) == n,
        n > 0 ==> decimal(n)[0] != '0',
    decreases n,
{
    let c = digit(n);
    assert(c as u32 == 48 + n % 10);
    if n < 10 {
        let t = seq![c];
        assert(t.drop_last() =~= Seq::<char>::empty());
        assert(number_of(Seq::<char>::empty()) == 0);
        assert(decimal(n) == t);
        assert(number_of(t) == n);
    } else {
        decimal_is_read_back(n / 10);
        let d = decimal(n / 10);
        assert(d.push(c).drop_last() =~= d);
        assert(d.push(c).last() == c);
    }
}

/// A number that is written in decimal notation is parsed as that number, if it
/// fits, with or without a plus sign before it.
pub proof fn written_number_is_parsed(n: nat)
    ensures
        n <= usize::MAX ==> parsed_number(decimal(n)) == Some(n),
        n <= usize::MAX ==> parsed_number(seq!['+'] + decimal(n)) == Some(n),
        n > usize::MAX ==> parsed_number(decimal(n)) is None,
{
    decimal_is_read_back(n);
    assert(is_digit(decimal(n)[0]));
    assert((seq!['+'] + decimal(n)).skip(1) =~= decimal(n));
}

/// A number with two decimal places is read back: without the point, which
/// stands before the last two digits, the digits stand for the hundredths.
proof fn hundredths_are_read_back(n: nat)
    ensures
        ({
            let t = with_hundredths(n);
            &&& t.len() >= 4
            &&& t[t.len() - 3] == '.'
            &&& number_of(t.take(t.len() - 3) + t.skip(t.len() - 2)) == n
        }),
{
    let t = with_hundredths(n);
    let whole = decimal(n / 100);
    decimal_is_read_back(n / 100);
    let all = whole + seq![digit(n / 10), digit(n)];
    assert(t.take(t.len() - 3) =~= whole);
    assert(t.skip(t.len() - 2) =~= seq![digit(n / 10), digit(n)]);
    assert(t.take(t.len() - 3) + t.skip(t.len() - 2) =~= all);
    assert(all.drop_last() =~= whole.push(digit(n / 10)));
    assert(all.drop_last().drop_last() =~= whole);
    assert(digit(n) as u32 == 48 + n % 10);
    assert(digit(n / 10) as u32 == 48 + n / 10 % 10);
    assert(number_of(whole.push(digit(n / 10))) == n / 100 * 10 + n / 10 % 10);
    assert(number_of(all) == (n / 100 * 10 + n / 10 % 10) * 10 + n % 10);
}

proof fn tenths_are_read_back(n: nat)
    ensures
        ({
            let t = with_tenths(n);
            &&& t.len() >= 3
            &&& t[t.len() - 2] == '.'
            &&& number_of(t.take(t.len() - 2) + t.skip(t.len() - 1)) == n
        }),
{
    let t = with_tenths(n);
    let whole = decimal(n / 10);
    decimal_is_read_back(n / 10);
    let all = whole.push(digit(n));
    assert(t.take(t.len() - 2) =~= whole);
    assert(t.skip(t.len() - 1) =~= seq![digit(n)]);
    assert(t.take(t.len() - 2) + t.skip(t.len() - 1) =~= all);
    assert(all.drop_last() =~= whole);
    assert(digit(n) as u32 == 48 + n % 10);
}

/// Whether a text is a number with some decimal places and a unit behind it, and
/// the number without its point is `n`.
pub open spec fn reads_as(text: Seq<char>, places: int, unit: Seq<char>, n: nat) -> bool {
    let k = text.len() - unit.len();
    &&& k >= places + 2
    &&& text.skip(k) == unit
    &&& text[k - places - 1] == '.'
    &&& number_of(text.take(k - places - 1) + text.subrange(k - places, k)) == n
}

proof fn hundredths_with_unit(n: nat, unit: Seq<char>)
    ensures
        reads_as(with_hundredths(n) + unit, 2, unit, n),
{
    let t = with_hundredths(n);
    let text = t + unit;
    let k = t.len() as int;
    hundredths_are_read_back(n);
    assert(text.skip(k) =~= unit);
    assert(text.take(k - 3) =~= t.take(k - 3));
    assert(text.subrange(k - 2, k) =~= t.skip(k - 2));
}

proof fn tenths_with_unit(n: nat, unit: Seq<char>)
    ensures
        reads_as(with_tenths(n) + unit, 1, unit, n),
{
    let t = with_tenths(n);
    let text = t + unit;
    let k = t.len() as int;
    tenths_are_read_back(n);
    assert(text.skip(k) =~= unit);
    assert(text.take(k - 2) =~= t.take(k - 2));
    assert(text.subrange(k - 1, k) =~= t.skip(k - 1));
}

/// A number of octets for people is told in the largest of the units B, KiB,
/// MiB, GiB and TiB, each 1024 of the one before, of which there is at least
/// one. In octets it is told as it is, else in hundredths of the unit, to the
/// nearest.
pub proof fn octets_are_told_in_units(n: nat) -> (hundredths: nat)
    ensures
        ({
            let f = to_double(n);
            let text = bytes_text(n);
            let close = |size: nat|
                2 * (hundredths * size - 100 * f) <= size && 2 * (100 * f - hundredths * size)
                    <= size;
            &&& f < 1024 ==> text == decimal(n) + " B"@
            &&& 1024 <= f < 1024 * 1024 ==> reads_as(text, 2, " "@ + "KiB"@, hundredths) && close(
                1024,
            )
            &&& 1024 * 1024 <= f < 1024 * 1024 * 1024 ==> reads_as(
                text,
                2,
                " "@ + "MiB"@,
                hundredths,
            ) && close(1024 * 1024)
            &&& 1024 * 1024 * 1024 <= f < 1024 * 1024 * 1024 * 1024 ==> reads_as(
                text,
                2,
                " "@ + "GiB"@,
                hundredths,
            ) && close(1024 * 1024 * 1024)
            &&& 1024 * 1024 * 1024 * 1024 <= f ==> reads_as(
                text,
                2,
                " "@ + "TiB"@,
                hundredths,
            ) && close(1024 * 1024 * 1024 * 1024)
        }),
{
    let f = to_double(n);
    let size = unit_size(unit_for(n));
    let hundredths = nearest(f * 100, size);
    if unit_for(n) != 0 {
        rounding_is_to_the_nearest(f * 100, size);
        let unit = " "@ + unit_name(unit_for(n));
        hundredths_with_unit(hundredths, unit);
        assert(bytes_text(n) =~= with_hundredths(hundredths) + unit);
    }
    hundredths
}

proof fn scale_is_right(scaled: nat, goal: nat, s: nat, f: nat)
    requires
        f > 0,
        s >= 1,
        scaled == f * s,
    ensures
        f * scale_from(scaled, goal, s) >= goal,
        scale_from(scaled, goal, s) >= s,
    decreases
            (if scaled < goal {
                goal - scaled
            } else {
                0
            }),
{
    assert(scaled >= 1) by (nonlinear_arith)
        requires
            scaled == f * s,
            f >= 1,
            s >= 1,
    ;
    if scaled < goal {
        assert(f * (2 * s) == 2 * (f * s)) by (nonlinear_arith);
        scale_is_right(2 * scaled, goal, 2 * s, f);
    }
}

/// The digits of a quotient up to a decimal place are off by no more than half of
/// that place, up to a thousandth of it.
proof fn quotient_is_close(f: nat, d: nat, power: nat)
    requires
        1 <= d <= f,
        f <= 0x10_0000_0000 * d,
        1 <= power <= 100,
    ensures
        is_close(quotient_digits(f, d, power), f, d, power),
{
    let goal = (SIGNIFICAND / 2) as nat * d;
    let s = scale_from(f, goal, 1);
    assert(f * 1 == f) by (nonlinear_arith);
    scale_is_right(f, goal, 1, f);
    // The scale is large enough for the first rounding not to matter.
    assert(s >= 0x1_0000) by (nonlinear_arith)
        requires
            f * s >= 0x10_0000_0000_0000 * d,
            f <= 0x10_0000_0000 * d,
            d >= 1,
    ;
    let m = nearest(f * s, d);
    let h = nearest(m * power, s);
    rounding_is_to_the_nearest(f * s, d);
    rounding_is_to_the_nearest(m * power, s);
    product_is_close(f as int, d as int, power as int, s as int, m as int, h as int);
}

proof fn sum_is_close(sum: int, a: int, b: int, large: int, small: int)
    requires
        sum == a + b,
        -large <= 2 * a <= large,
        -small <= 2 * b <= small,
        500 * small <= large,
    ensures
        -1_002 * large <= 2_000 * sum <= 1_002 * large,
{
}

proof fn product_is_close(f: int, d: int, power: int, s: int, m: int, h: int)
    requires
        2 * (m * d - f * s) <= d,
        2 * (f * s - m * d) <= d,
        2 * (h * s - m * power) <= s,
        2 * (m * power - h * s) <= s,
        s >= 0x1_0000,
        1 <= power <= 100,
        d >= 1,
    ensures
        2_000 * (h * d) <= 2_000 * (f * power) + 1_002 * d,
        2_000 * (f * power) <= 2_000 * (h * d) + 1_002 * d,
{
    let up = m * d - f * s;
    let over = h * s - m * power;
    let off = h * d - f * power;
    assert(off * s == over * d + up * power) by (nonlinear_arith)
        requires
            up == m * d - f * s,
            over == h * s - m * power,
            off == h * d - f * power,
    ;
    assert(-(s * d) <= 2 * (over * d) <= s * d) by (nonlinear_arith)
        requires
            -s <= 2 * over <= s,
            d >= 1,
    ;
    assert(-(d * power) <= 2 * (up * power) <= d * power) by (nonlinear_arith)
        requires
            -d <= 2 * up <= d,
            power >= 1,
    ;
    assert(500 * (d * power) <= s * d) by (nonlinear_arith)
        requires
            power <= 100,
            s >= 0x1_0000,
            d >= 1,
    ;
    sum_is_close(off * s, over * d, up * power, s * d, d * power);
    assert(-1_002 * d <= 2_000 * off <= 1_002 * d) by (nonlinear_arith)
        requires
            -1_002 * (s * d) <= 2_000 * (off * s) <= 1_002 * (s * d),
            s >= 1,
    ;
}

/// Whether digits up to a decimal place are those of a quotient, but for half of
/// that place and a thousandth of it.
pub open spec fn is_close(digits: nat, f: nat, d: nat, power: nat) -> bool {
    &&& 2_000 * (digits * d) <= 2_000 * (f * power) + 1_002 * d
    &&& 2_000 * (f * power) <= 2_000 * (digits * d) + 1_002 * d
}

/// A count for people is told as it is below a thousand, in tenths of thousands
/// (k) below a million, in hundredths of millions (M) below a billion, and in
/// hundredths of billions (G) from there on; in tenths of millions where there
/// are a hundred of them. What is told is off by no more than half at the last
/// place, up to a thousandth.
pub proof fn counts_are_told_in_thousands(n: nat) -> (digits: nat)
    requires
        n <= u64::MAX,
    ensures
        ({
            let f = to_double(n);
            let text = count_text(n);
            let close = |d: nat, power: nat| is_close(digits, f, d, power);
            &&& n < 1_000 ==> text == decimal(n)
            &&& 1_000 <= n < 1_000_000 ==> reads_as(text, 1, "k"@, digits) && close(1_000, 10)
            &&& 1_000_000 <= n < 1_000_000_000 ==> {
                ||| reads_as(text, 2, "M"@, digits) && close(1_000_000, 100) && digits < 10_000
                ||| reads_as(text, 1, "M"@, digits) && close(1_000_000, 10) && digits >= 1_000
            }
            &&& 1_000_000_000 <= n ==> reads_as(text, 2, "G"@, digits) && close(
                1_000_000_000,
                100,
            )
        }),
{
    let f = to_double(n);
    let (m, k) = double_is_the_nearest(n);
    double_is_near(n);
    if n < 1_000 {
        0
    } else if n < 1_000_000 {
        let digits = quotient_digits(f, 1_000, 10);
        quotient_is_close(f, 1_000, 10);
        tenths_with_unit(digits, "k"@);
        digits
    } else if n < 1_000_000_000 {
        let hundredths = quotient_digits(f, 1_000_000, 100);
        let tenths = quotient_digits(f, 1_000_000, 10);
        quotient_is_close(f, 1_000_000, 100);
        quotient_is_close(f, 1_000_000, 10);
        hundredths_with_unit(hundredths, "M"@);
        tenths_with_unit(tenths, "M"@);
        if hundredths >= 100_00 {
            tenths
        } else {
            hundredths
        }
    } else {
        let digits = quotient_digits(f, 1_000_000_000, 100);
        quotient_is_close(f, 1_000_000_000, 100);
        hundredths_with_unit(digits, "G"@);
        digits
    }
}

/// The double nearest to a number is no less than half of it and no more than
/// twice it, and is the number itself where it has up to 53 bits.
proof fn double_is_near(n: nat)
    ensures
        n < 0x20_0000_0000_0000 ==> to_double(n) == n,
        2 * to_double(n) >= n,
        to_double(n) <= 2 * n,
{
    let (m, k) = double_is_the_nearest(n);
    if n >= 0x20_0000_0000_0000 {
        let p = pow2(k);
        lemma2_to64();
        assert(k == 0 ==> p == 1);
        assert(p <= n) by (nonlinear_arith)
            requires
                k == 0 ==> p == 1,
                k == 0 || 2 * n >= 0x20_0000_0000_0000 * p,
                n >= 0x20_0000_0000_0000,
        ;
    }
}

//------------ Words ---------------------------------------------------------

proof fn words_are_clean(text: Seq<char>, word: Seq<char>)
    requires
        forall|i: int| 0 <= i < word.len() ==> !is_space(#[trigger] word[i]),
    ensures
        forall|k: int|
            0 <= k < words_from(text, word).len() ==> (#[trigger] words_from(text, word)[k]).len()
                > 0,
        forall|k: int, i: int|
            0 <= k < words_from(text, word).len() && 0 <= i < words_from(text, word)[k].len()
                ==> !is_space(#[trigger] words_from(text, word)[k][i]),
        words_from(text, word).flatten() == word + text.filter(|c: char| !is_space(c)),
    decreases text.len(),
{
    let keep = |c: char| !is_space(c);
    if text.len() == 0 {
        reveal(Seq::filter);
        assert(text.filter(keep) =~= Seq::empty());
        if word.len() > 0 {
            let all = seq![word];
            assert(all.drop_first() =~= Seq::empty());
            assert(all.first() == word);
            assert(all.drop_first().flatten() =~= Seq::empty());
            assert(all.flatten() =~= word);
        } else {
            let none = Seq::<Seq<char>>::empty();
            assert(none.flatten() =~= Seq::empty());
        }
        assert(words_from(text, word).flatten() =~= word + text.filter(keep));
    } else {
        let rest = text.skip(1);
        assert(text =~= seq![text[0]] + rest);
        rest.lemma_filter_prepend(text[0], keep);
        if is_space(text[0]) {
            let none = Seq::<char>::empty();
            words_are_clean(rest, none);
            let later = words_from(rest, none);
            if word.len() > 0 {
                let all = seq![word] + later;
                assert(all.drop_first() =~= later);
                assert(all.first() == word);
                assert(all.flatten() =~= word + text.filter(keep));
                assert forall|k: int| 0 <= k < all.len() implies (#[trigger] all[k]).len() > 0 by {
                    if k > 0 {
                        assert(all[k] == later[k - 1]);
                    }
                }
                assert forall|k: int, i: int|
                    0 <= k < all.len() && 0 <= i < all[k].len() implies !is_space(
                    #[trigger] all[k][i],
                ) by {
                    if k > 0 {
                        assert(all[k] == later[k - 1]);
                        assert(!is_space(later[k - 1][i]));
                    }
                }
            } else {
                assert(later.flatten() =~= word + text.filter(keep));
            }
        } else {
            words_are_clean(rest, word.push(text[0]));
            assert(word.push(text[0]) + rest.filter(keep) =~= word + text.filter(keep));
        }
    }
}

/// The words of a text are not empty and hold no space, and together they are
/// all of the text that is not space, in order.
pub proof fn words_are_what_is_not_space(text: Seq<char>)
    ensures
        forall|k: int| 0 <= k < words(text).len() ==> (#[trigger] words(text)[k]).len() > 0,
        forall|k: int, i: int|
            0 <= k < words(text).len() && 0 <= i < words(text)[k].len() ==> !is_space(
                #[trigger] words(text)[k][i],
            ),
        words(text).flatten() == text.filter(|c: char| !is_space(c)),
{
    words_are_clean(text, Seq::empty());
    assert(Seq::<char>::empty() + text.filter(|c: char| !is_space(c)) =~= text.filter(
        |c: char| !is_space(c),
    ));
}

proof fn words_split_from(a: Seq<char>, word: Seq<char>, space: char, b: Seq<char>)
    requires
        is_space(space),
    ensures
        words_from(a + seq![space] + b, word) == words_from(a, word) + words(b),
    decreases a.len(),
{
    let all = a + seq![space] + b;
    if a.len() == 0 {
        assert(all[0] == space);
        assert(all.skip(1) =~= b);
        if word.len() > 0 {
            assert(words_from(a, word) =~= seq![word]);
        } else {
            assert(words_from(a, word) + words(b) =~= words(b));
        }
    } else {
        assert(all[0] == a[0]);
        assert(all.skip(1) =~= a.skip(1) + seq![space] + b);
        if is_space(a[0]) {
            words_split_from(a.skip(1), Seq::empty(), space, b);
            let early = words_from(a.skip(1), Seq::empty());
            if word.len() > 0 {
                assert(seq![word] + (early + words(b)) =~= (seq![word] + early) + words(b));
            }
        } else {
            words_split_from(a.skip(1), word.push(a[0]), space, b);
        }
    }
}

/// A space splits a text: its words are those before the space and then those
/// after it.
pub proof fn space_splits_words(a: Seq<char>, space: char, b: Seq<char>)
    requires
        is_space(space),
    ensures
        words(a + seq![space] + b) == words(a) + words(b),
{
    words_split_from(a, Seq::empty(), space, b);
}

proof fn one_word_from(text: Seq<char>, word: Seq<char>)
    requires
        word.len() + text.len() > 0,
        forall|i: int| 0 <= i < text.len() ==> !is_space(#[trigger] text[i]),
    ensures
        words_from(text, word) == seq![word + text],
    decreases text.len(),
{
    if text.len() == 0 {
        assert(word + text =~= word);
    } else {
        assert forall|i: int| 0 <= i < text.skip(1).len() implies !is_space(
            #[trigger] text.skip(1)[i],
        ) by {
            assert(text.skip(1)[i] == text[i + 1]);
        }
        assert(!is_space(text[0]));
        one_word_from(text.skip(1), word.push(text[0]));
        assert(word.push(text[0]) + text.skip(1) =~= word + text);
    }
}

/// In a line of page counts in decimal notation the second word is the second
/// count, whatever follows: the resident set is that many pages.
pub proof fn second_count_is_that_of_resident_pages(first: nat, second: nat, rest: Seq<char>)
    requires
        second <= usize::MAX,
    ensures
        ({
            let line = decimal(first) + seq![' '] + (decimal(second) + seq![' '] + rest);
            words(line).len() >= 2 && parsed_number(words(line)[1]) == Some(second)
        }),
{
    let later = decimal(second) + seq![' '] + rest;
    space_splits_words(decimal(first), ' ', later);
    space_splits_words(decimal(second), ' ', rest);
    one_number_is_one_word(first);
    one_number_is_one_word(second);
    written_number_is_parsed(second);
    let line = decimal(first) + seq![' '] + later;
    assert(words(line)[1] == words(later)[0]);
}

proof fn one_number_is_one_word(n: nat)
    ensures
        words(decimal(n)) == seq![decimal(n)],
{
    decimal_is_read_back(n);
    assert forall|i: int| 0 <= i < decimal(n).len() implies !is_space(#[trigger] decimal(n)[i]) by {
        assert(is_digit(decimal(n)[i]));
    }
    one_word_from(decimal(n), Seq::empty());
    assert(Seq::<char>::empty() + decimal(n) =~= decimal(n));
}

/// Nothing but decimal notation is taken for a number: at least one digit, and
/// besides digits at most one plus sign in front, which makes no difference; nor
/// do leading zeros.
pub proof fn only_digits_are_parsed(word: Seq<char>, i: int)
    ensures
        parsed_number(word) is Some && 0 <= i < word.len() ==> 48 <= word[i] as u32 <= 57 || (i == 0
            && word[i] == '+'),
        parsed_number(word) is Some ==> word.len() > 0 && 48 <= word.last() as u32 <= 57,
        parsed_number(word) is Some && word[0] != '+' ==> parsed_number(seq!['+'] + word)
            == parsed_number(word) && parsed_number(seq!['0'] + word) == parsed_number(word),
{
    let part = unsigned_part(word);
    if parsed_number(word) is Some {
        assert(is_digit(part[part.len() - 1]));
        if word[0] == '+' {
            if i > 0 && i < word.len() {
                assert(is_digit(part[i - 1]));
            }
        } else {
            if 0 <= i < word.len() {
                assert(is_digit(part[i]));
            }
            let plus = seq!['+'] + word;
            assert(plus.skip(1) =~= word);
            let zero = seq!['0'] + word;
            leading_zero_adds_nothing(word);
            assert forall|k: int| 0 <= k < zero.len() implies is_digit(#[trigger] zero[k]) by {
                if k > 0 {
                    assert(is_digit(word[k - 1]));
                }
            }
        }
    }
}

proof fn leading_zero_adds_nothing(digits: Seq<char>)
    ensures
        number_of(seq!['0'] + digits) == number_of(digits),
    decreases digits.len(),
{
    let all = seq!['0'] + digits;
    if digits.len() == 0 {
        assert(all.drop_last() =~= Seq::empty());
        assert(number_of(all.drop_last()) == 0);
    } else {
        leading_zero_adds_nothing(digits.drop_last());
        assert(all.drop_last() =~= seq!['0'] + digits.drop_last());
    }
}

} // verus!
