//! Text that the kernel prints: decimal and hexadecimal numbers, padding, and
//! the appending of pieces to a `String`.

use vstd::prelude::*;

verus! {

/// `String::push` appends one character and changes nothing else.
pub assume_specification[ String::push ](s: &mut String, c: char)
    ensures
        final(s)@ == old(s)@.push(c),
;

/// The character of one digit, lower case above nine.
pub open spec fn digit_char(d: int) -> char {
    if d < 10 {
        (48 + d) as char
    } else {
        (87 + d) as char
    }
}

/// A number in base ten, without leading zeros.
pub open spec fn dec(n: nat) -> Seq<char>
    decreases n,
{
    if n < 10 {
        seq![digit_char(n as int)]
    } else {
        dec(n / 10).push(digit_char(n as int % 10))
    }
}

/// A number in base sixteen, lower case, without leading zeros.
pub open spec fn hex(n: nat) -> Seq<char>
    decreases n,
{
    if n < 16 {
        seq![digit_char(n as int)]
    } else {
        hex(n / 16).push(digit_char(n as int % 16))
    }
}

/// `n` copies of `c`.
pub open spec fn fill(c: char, n: int) -> Seq<char> {
    Seq::new(if n > 0 { n as nat } else { 0 }, |i: int| c)
}

/// `s` with `c` in front of it up to the width `w`.
pub open spec fn pad_start(s: Seq<char>, w: int, c: char) -> Seq<char> {
    fill(c, w - s.len()) + s
}

/// The value that a run of decimal digits stands for.
pub open spec fn dec_value(s: Seq<char>) -> int
    decreases s.len(),
{
    if s.len() == 0 {
        0
    } else {
        10 * dec_value(s.drop_last()) + (s.last() as int - 48)
    }
}

/// A printed decimal number reads back as the number.
pub proof fn lemma_dec_reads_back(n: nat)
    ensures
        dec_value(dec(n)) == n,
        dec(n).len() >= 1,
    decreases n,
{
    reveal_with_fuel(dec_value, 2);
    if n >= 10 {
        lemma_dec_reads_back(n / 10);
        assert(dec(n).drop_last() =~= dec(n / 10));
    } else {
        assert(dec(n).drop_last() =~= Seq::<char>::empty());
    }
}

/// The character of a digit below sixteen.
pub fn digit(d: u64) -> (c: char)
    requires
        d < 16,
    ensures
        c == digit_char(d as int),
{
    if d < 10 {
        (48 + d as u8) as char
    } else {
        (87 + d as u8) as char
    }
}

pub fn push_dec(out: &mut String, n: u64)
    ensures
        final(out)@ == old(out)@ + dec(n as nat),
    decreases n,
{
    if n >= 10 {
        push_dec(out, n / 10);
    }
    out.push(digit(n % 10));
    assert(out@ =~= old(out)@ + dec(n as nat));
}

pub fn push_hex(out: &mut String, n: u64)
    ensures
        final(out)@ == old(out)@ + hex(n as nat),
    decreases n,
{
    if n >= 16 {
        push_hex(out, n / 16);
    }
    out.push(digit(n % 16));
    assert(out@ =~= old(out)@ + hex(n as nat));
}

pub fn push_fill(out: &mut String, c: char, n: usize)
    ensures
        final(out)@ == old(out)@ + fill(c, n as int),
{
    let mut i: usize = 0;
    while i < n
        invariant
            i <= n,
            out@ == old(out)@ + fill(c, i as int),
        decreases n - i,
    {
        out.push(c);
        i = i + 1;
        assert(out@ =~= old(out)@ + fill(c, i as int));
    }
}

/// The number of hexadecimal digits of `n`.
pub fn hex_len(n: u64) -> (l: usize)
    ensures
        l == hex(n as nat).len(),
        1 <= l <= 16,
{
    let mut m: u64 = n;
    let mut l: usize = 1;
    proof {
        lemma_hex_len_u64(n);
    }
    while m >= 16
        invariant
            l + hex(m as nat).len() == 1 + hex(n as nat).len(),
            hex(n as nat).len() <= 16,
            1 <= l <= 16,
        decreases m,
    {
        proof {
            lemma_hex_len_u64(m / 16);
        }
        m = m / 16;
        l = l + 1;
    }
    l
}

/// Sixteen to the power `k`.
pub open spec fn pow16(k: nat) -> nat
    decreases k,
{
    if k == 0 {
        1
    } else {
        16 * pow16((k - 1) as nat)
    }
}

/// A number below `16^k` has at most `k` hexadecimal digits.
pub proof fn lemma_hex_len(n: nat, k: nat)
    requires
        k >= 1,
        n < pow16(k),
    ensures
        1 <= hex(n).len() <= k,
    decreases k,
{
    if n >= 16 {
        assert(k > 1) by {
            reveal_with_fuel(pow16, 2);
        }
        lemma_hex_len(n / 16, (k - 1) as nat);
    }
}

proof fn lemma_hex_len_u64(n: u64)
    ensures
        1 <= hex(n as nat).len() <= 16,
{
    assert(pow16(16) == 0x1_0000_0000_0000_0000) by {
        reveal_with_fuel(pow16, 17);
    }
    lemma_hex_len(n as nat, 16);
}

/// `n` in hexadecimal, with zeros in front up to `w` digits.
pub fn push_hex_padded(out: &mut String, n: u64, w: usize)
    ensures
        final(out)@ == old(out)@ + pad_start(hex(n as nat), w as int, '0'),
{
    let l: usize = hex_len(n);
    if l < w {
        push_fill(out, '0', w - l);
    }
    push_hex(out, n);
    assert(out@ =~= old(out)@ + pad_start(hex(n as nat), w as int, '0'));
}

/// `n` in base ten, with a zero in front where it has one digit.
pub fn push_dec2(out: &mut String, n: u64)
    ensures
        final(out)@ == old(out)@ + pad_start(dec(n as nat), 2, '0'),
{
    if n < 10 {
        out.push('0');
    }
    push_dec(out, n);
    proof {
        if n >= 10 {
            lemma_dec_reads_back(n as nat / 10);
        }
    }
    assert(out@ =~= old(out)@ + pad_start(dec(n as nat), 2, '0'));
}

/// A word as "0x" and sixteen digits.
pub open spec fn hex18(v: u64) -> Seq<char> {
    "0x"@ + pad_start(hex(v as nat), 16, '0')
}

pub fn push_hex18(out: &mut String, v: u64)
    ensures
        final(out)@ == old(out)@ + hex18(v),
{
    let mut word = "0x".to_owned();
    push_hex_padded(&mut word, v, 16);
    out.append(word.as_str());
}

/// The characters of each line.
pub open spec fn views(lines: Seq<String>) -> Seq<Seq<char>> {
    Seq::new(lines.len(), |i: int| lines[i]@)
}

/// Adds a line to a report.
pub fn push_line(lines: &mut Vec<String>, line: String)
    ensures
        views(final(lines)@) == views(old(lines)@).push(line@),
{
    lines.push(line);
    assert(views(lines@) =~= views(old(lines)@).push(line@));
}

/// Whether two strings hold the same characters.
pub fn str_eq(a: &str, b: &str) -> (r: bool)
    ensures
        r == (a@ == b@),
{
    let n: usize = a.unicode_len();
    if n != b.unicode_len() {
        return false;
    }
    let mut i: usize = 0;
    while i < n
        invariant
            i <= n,
            n == a@.len(),
            n == b@.len(),
            forall|j: int| 0 <= j < i ==> a@[j] == b@[j],
        decreases n - i,
    {
        if a.get_char(i) != b.get_char(i) {
            return false;
        }
        i = i + 1;
    }
    assert(a@ =~= b@);
    true
}

} // verus!
