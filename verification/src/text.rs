//! The few pieces every sentence an ant reads is made of: numbers written out
//! in digits, and "n cells to the north-east".

use vstd::prelude::*;

use crate::grid::Dir;

verus! {

/// The digit for `d`, which is below ten.
pub open spec fn digit_text(d: nat) -> Seq<char> {
    if d == 0 {
        "0"@
    } else if d == 1 {
        "1"@
    } else if d == 2 {
        "2"@
    } else if d == 3 {
        "3"@
    } else if d == 4 {
        "4"@
    } else if d == 5 {
        "5"@
    } else if d == 6 {
        "6"@
    } else if d == 7 {
        "7"@
    } else if d == 8 {
        "8"@
    } else {
        "9"@
    }
}

/// `n` written in decimal digits, most significant first, without leading zeros.
pub open spec fn decimal(n: nat) -> Seq<char>
    decreases n,
{
    if n < 10 {
        digit_text(n)
    } else {
        decimal(n / 10) + digit_text(n % 10)
    }
}

/// `n` in decimal digits, with a minus sign in front when it is negative.
pub open spec fn signed_decimal(n: int) -> Seq<char> {
    if n < 0 { "-"@ + decimal((-n) as nat) } else { decimal(n as nat) }
}

/// "cell" for one, "cells" for any other number.
pub open spec fn cells_word(n: int) -> Seq<char> {
    if n == 1 { "cell"@ } else { "cells"@ }
}

/// "<what>, <n> cells to the <direction>".
pub open spec fn located(what: Seq<char>, distance: nat, dir: Dir) -> Seq<char> {
    what + ", "@ + decimal(distance) + " "@ + cells_word(distance as int) + " to the "@
        + dir.spoken_text()
}

fn digit(d: u32) -> (s: &'static str)
    requires
        d < 10,
    ensures
        s@ == digit_text(d as nat),
{
    match d {
        0 => "0",
        1 => "1",
        2 => "2",
        3 => "3",
        4 => "4",
        5 => "5",
        6 => "6",
        7 => "7",
        8 => "8",
        _ => "9",
    }
}

/// `n` in decimal digits.
pub fn decimal_string(n: u32) -> (s: String)
    ensures
        s@ == decimal(n as nat),
    decreases n,
{
    if n < 10 {
        String::from_str(digit(n))
    } else {
        let mut s = decimal_string(n / 10);
        s.append(digit(n % 10));
        s
    }
}

/// `n` in decimal digits, for counts wider than 32 bits.
pub fn wide_decimal_string(n: u64) -> (s: String)
    ensures
        s@ == decimal(n as nat),
    decreases n,
{
    if n < 10 {
        String::from_str(digit(n as u32))
    } else {
        let mut s = wide_decimal_string(n / 10);
        s.append(digit((n % 10) as u32));
        s
    }
}

/// `n` in decimal digits, signed.
pub fn signed_string(n: i32) -> (s: String)
    ensures
        s@ == signed_decimal(n as int),
{
    if n < 0 {
        let magnitude: i64 = 0i64 - n as i64;
        let digits = decimal_string(magnitude as u32);
        joined("-", digits.as_str())
    } else {
        decimal_string(n as u32)
    }
}

/// "cell" or "cells", whichever goes with `n`.
pub fn cells_for(n: u32) -> (s: &'static str)
    ensures
        s@ == cells_word(n as int),
{
    if n == 1 { "cell" } else { "cells" }
}

/// "<what>, <n> cells to the <direction>".
pub fn located_string(what: &str, distance: u32, dir: Dir) -> (s: String)
    ensures
        s@ == located(what@, distance as nat, dir),
{
    let mut s = String::from_str(what);
    s.append(", ");
    let number = decimal_string(distance);
    s.append(number.as_str());
    s.append(" ");
    s.append(cells_for(distance));
    s.append(" to the ");
    s.append(dir.spoken());
    s
}

/// `first` followed by `second`, as a new string.
pub fn joined(first: &str, second: &str) -> (s: String)
    ensures
        s@ == first@ + second@,
{
    let mut s = String::from_str(first);
    s.append(second);
    s
}

/// Rust's `char::is_whitespace`: the characters with the Unicode
/// `White_Space` property.
pub open spec fn white(c: char) -> bool {
    let n = c as u32;
    (0x9 <= n <= 0xd) || n == 0x20 || n == 0x85 || n == 0xa0 || n == 0x1680 || (0x2000 <= n
        <= 0x200a) || n == 0x2028 || n == 0x2029 || n == 0x202f || n == 0x205f || n == 0x3000
}

pub fn is_white(c: char) -> (b: bool)
    ensures
        b == white(c),
{
    let n: u32 = c as u32;
    (0x9 <= n && n <= 0xd) || n == 0x20 || n == 0x85 || n == 0xa0 || n == 0x1680 || (0x2000 <= n
        && n <= 0x200a) || n == 0x2028 || n == 0x2029 || n == 0x202f || n == 0x205f || n == 0x3000
}

/// Where the text starts once leading whitespace from `i` on is skipped.
pub open spec fn skip_front(s: Seq<char>, i: int) -> int
    decreases s.len() - i,
{
    if 0 <= i < s.len() && white(s[i]) { skip_front(s, i + 1) } else { i }
}

/// Where the text ends once trailing whitespace before `j` is dropped,
/// never going below `lo`.
pub open spec fn skip_back(s: Seq<char>, j: int, lo: int) -> int
    decreases j - lo,
{
    if lo < j && j <= s.len() && white(s[j - 1]) { skip_back(s, j - 1, lo) } else { j }
}

/// `s` without leading and trailing whitespace, as `str::trim` has it.
pub open spec fn trimmed_text(s: Seq<char>) -> Seq<char> {
    let front = skip_front(s, 0);
    s.subrange(front, skip_back(s, s.len() as int, front))
}

/// `s` without leading and trailing whitespace.
pub fn trimmed(s: &str) -> (t: &str)
    ensures
        t@ == trimmed_text(s@),
{
    let n: usize = s.unicode_len();
    let mut front: usize = 0;
    while front < n && is_white(s.get_char(front))
        invariant
            n == s@.len(),
            front <= n,
            skip_front(s@, 0) == skip_front(s@, front as int),
        decreases n - front,
    {
        front = front + 1;
    }
    let mut back: usize = n;
    while back > front && is_white(s.get_char(back - 1))
        invariant
            n == s@.len(),
            front <= back <= n,
            front == skip_front(s@, 0),
            skip_back(s@, n as int, front as int) == skip_back(s@, back as int, front as int),
        decreases back - front,
    {
        back = back - 1;
    }
    s.substring_char(front, back)
}

/// Whether a text is nothing but whitespace (or nothing at all).
pub fn is_blank(s: &str) -> (b: bool)
    ensures
        b == (trimmed_text(s@).len() == 0),
{
    let t = trimmed(s);
    t.unicode_len() == 0
}

/// A copy of a list of texts.
pub fn copy_texts(v: &Vec<String>) -> (r: Vec<String>)
    ensures
        r@ == v@,
{
    let mut r: Vec<String> = Vec::new();
    let mut i: usize = 0;
    while i < v.len()
        invariant
            i <= v.len(),
            r@ == v@.take(i as int),
        decreases v.len() - i,
    {
        r.push(v[i].clone());
        assert(v@.take(i + 1) =~= v@.take(i as int).push(v@[i as int]));
        i = i + 1;
    }
    assert(v@.take(v.len() as int) =~= v@);
    r
}

/// A value in parts per million, rounded to hundredths and written with two
/// decimal places, as `{:.2}` writes the fraction it stands for.
pub open spec fn two_places(ppm: nat) -> Seq<char> {
    let h = (ppm + 5000) / 10000;
    decimal(h / 100) + "."@ + digit_text((h % 100) / 10) + digit_text(h % 10)
}

pub fn two_places_string(ppm: u32) -> (s: String)
    ensures
        s@ == two_places(ppm as nat),
{
    let h: u64 = (ppm as u64 + 5000) / 10000;
    let mut s = decimal_string((h / 100) as u32);
    s.append(".");
    s.append(digit(((h % 100) / 10) as u32));
    s.append(digit((h % 10) as u32));
    s
}

/// Whether two texts are the same characters.
pub fn same_text(a: &str, b: &str) -> (r: bool)
    ensures
        r == (a@ == b@),
{
    let n: usize = a.unicode_len();
    if n != b.unicode_len() {
        return false;
    }
    let mut i: usize = 0;
    while i < n
        invariant
            n == a@.len(),
            n == b@.len(),
            i <= n,
            forall|k: int| 0 <= k < i ==> a@[k] == b@[k],
        decreases n - i,
    {
        if a.get_char(i) != b.get_char(i) {
            return false;
        }
        i = i + 1;
    }
    assert(a@ =~= b@);
    true
}

/// Whether `a` comes before `b` in the order Rust gives strings: character
/// by character by code point, a proper prefix first.
pub open spec fn text_before(a: Seq<char>, b: Seq<char>) -> bool
    decreases a.len(),
{
    if a.len() == 0 {
        b.len() > 0
    } else if b.len() == 0 {
        false
    } else if (a[0] as u32) < (b[0] as u32) {
        true
    } else if a[0] == b[0] {
        text_before(a.drop_first(), b.drop_first())
    } else {
        false
    }
}

pub fn is_before(a: &str, b: &str) -> (r: bool)
    ensures
        r == text_before(a@, b@),
{
    let n: usize = a.unicode_len();
    let m: usize = b.unicode_len();
    let mut i: usize = 0;
    assert(a@.skip(0) =~= a@ && b@.skip(0) =~= b@);
    while i < n && i < m
        invariant
            n == a@.len(),
            m == b@.len(),
            i <= n,
            i <= m,
            text_before(a@, b@) == text_before(a@.skip(i as int), b@.skip(i as int)),
        decreases n - i,
    {
        let x: char = a.get_char(i);
        let y: char = b.get_char(i);
        assert(a@.skip(i as int)[0] == x && b@.skip(i as int)[0] == y);
        if (x as u32) < (y as u32) {
            return true;
        }
        if x != y {
            proof {
                assert((x as u32) != (y as u32));
            }
            return false;
        }
        assert(a@.skip(i as int).drop_first() =~= a@.skip(i + 1));
        assert(b@.skip(i as int).drop_first() =~= b@.skip(i + 1));
        i = i + 1;
    }
    proof {
        assert(a@.skip(i as int).len() == n - i);
        assert(b@.skip(i as int).len() == m - i);
    }
    i == n && i < m
}

} // verus!
