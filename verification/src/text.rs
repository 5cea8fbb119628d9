//! Character-level text helpers: number rendering, string building and
//! comparison, all stated over `Seq<char>`.
use vstd::prelude::*;

verus! {

/// The digit character for `d` (0-9, then upper-case A-F).
pub open spec fn digit_char(d: nat) -> char {
    if d < 10 {
        (d + 48) as char
    } else {
        (d + 55) as char
    }
}

/// Decimal rendering of `n` without leading zeros.
pub open spec fn dec_digits(n: nat) -> Seq<char>
    decreases n,
{
    if n < 10 {
        seq![digit_char(n)]
    } else {
        dec_digits(n / 10).push(digit_char(n % 10))
    }
}

/// Upper-case hexadecimal rendering of `n` without leading zeros.
pub open spec fn hex_digits(n: nat) -> Seq<char>
    decreases n,
{
    if n < 16 {
        seq![digit_char(n)]
    } else {
        hex_digits(n / 16).push(digit_char(n % 16))
    }
}

/// `s` left-padded with `'0'` up to `width` characters.
pub open spec fn zero_pad(s: Seq<char>, width: nat) -> Seq<char> {
    if s.len() >= width {
        s
    } else {
        Seq::new((width - s.len()) as nat, |i: int| '0') + s
    }
}

/// `{n}` in a format string.
pub open spec fn dec(n: nat) -> Seq<char> {
    dec_digits(n)
}

/// `{n:0W}` in a format string.
pub open spec fn dec_width(n: nat, width: nat) -> Seq<char> {
    zero_pad(dec_digits(n), width)
}

/// `{n:0WX}` in a format string.
pub open spec fn hex_width(n: nat, width: nat) -> Seq<char> {
    zero_pad(hex_digits(n), width)
}

/// Lines joined with `'\n'` between them.
pub open spec fn join_lines(lines: Seq<Seq<char>>) -> Seq<char>
    decreases lines.len(),
{
    if lines.len() == 0 {
        Seq::empty()
    } else if lines.len() == 1 {
        lines[0]
    } else {
        join_lines(lines.drop_last()) + seq!['\n'] + lines.last()
    }
}

/// Appends one character to a string.
#[verifier::external_body]
pub(crate) fn push_char(s: &mut String, c: char)
    ensures
        final(s)@ == old(s)@.push(c),
{
    s.push(c);
}

/// Collects characters into a new string.
pub(crate) fn string_from_chars(chars: &[char]) -> (s: String)
    ensures
        s@ == chars@,
{
    let mut s = String::new();
    let mut i: usize = 0;
    while i < chars.len()
        invariant
            i <= chars@.len(),
            s@ == chars@.take(i as int),
        decreases chars@.len() - i,
    {
        push_char(&mut s, chars[i]);
        i += 1;
        assert(s@ =~= chars@.take(i as int));
    }
    assert(chars@.take(i as int) =~= chars@);
    s
}

/// The characters of `s`, in order.
pub fn chars_of(s: &str) -> (v: Vec<char>)
    ensures
        v@ == s@,
{
    let n = s.unicode_len();
    let mut v: Vec<char> = Vec::new();
    let mut i: usize = 0;
    while i < n
        invariant
            n == s@.len(),
            i <= n,
            v@ == s@.take(i as int),
        decreases n - i,
    {
        let c = s.get_char(i);
        v.push(c);
        i += 1;
        assert(v@ =~= s@.take(i as int));
    }
    assert(s@.take(n as int) =~= s@);
    v
}

/// Whether two strings hold the same characters.
pub fn str_equal(a: &str, b: &str) -> (r: bool)
    ensures
        r == (a@ == b@),
{
    let n = a.unicode_len();
    if n != b.unicode_len() {
        return false;
    }
    let mut i: usize = 0;
    while i < n
        invariant
            n == a@.len(),
            n == b@.len(),
            i <= n,
            forall|k: int| 0 <= k < i ==> a@[k] == b@[k],
        decreases n - i,
    {
        if a.get_char(i) != b.get_char(i) {
            return false;
        }
        i += 1;
    }
    assert(a@ =~= b@);
    true
}

/// The digit character for `d`.
pub fn digit(d: u8) -> (c: char)
    requires
        d < 16,
    ensures
        c == digit_char(d as nat),
{
    if d < 10 {
        (d + 48) as char
    } else {
        (d + 55) as char
    }
}

/// Appends the decimal rendering of `n`.
pub fn push_dec(s: &mut String, n: usize)
    ensures
        final(s)@ == old(s)@ + dec_digits(n as nat),
    decreases n,
{
    if n >= 10 {
        push_dec(s, n / 10);
    }
    let c = digit((n % 10) as u8);
    push_char(s, c);
    assert(final(s)@ =~= old(s)@ + dec_digits(n as nat));
}

/// Appends the upper-case hexadecimal rendering of `n`.
pub fn push_hex(s: &mut String, n: usize)
    ensures
        final(s)@ == old(s)@ + hex_digits(n as nat),
    decreases n,
{
    if n >= 16 {
        push_hex(s, n / 16);
    }
    let c = digit((n % 16) as u8);
    push_char(s, c);
    assert(final(s)@ =~= old(s)@ + hex_digits(n as nat));
}

/// Number of decimal digits of `n`.
pub fn dec_len(n: usize) -> (len: usize)
    ensures
        len == dec_digits(n as nat).len(),
        1 <= len <= n + 1,
    decreases n,
{
    if n >= 10 {
        let l = dec_len(n / 10);
        l + 1
    } else {
        1
    }
}

/// Number of hexadecimal digits of `n`.
pub fn hex_len(n: usize) -> (len: usize)
    ensures
        len == hex_digits(n as nat).len(),
        1 <= len <= n + 1,
    decreases n,
{
    if n >= 16 {
        let l = hex_len(n / 16);
        l + 1
    } else {
        1
    }
}

/// Appends `count` zero characters.
fn push_zeros(s: &mut String, count: usize)
    ensures
        final(s)@ == old(s)@ + Seq::new(count as nat, |i: int| '0'),
{
    let mut i: usize = 0;
    while i < count
        invariant
            i <= count,
            s@ == old(s)@ + Seq::new(i as nat, |k: int| '0'),
        decreases count - i,
    {
        push_char(s, '0');
        i += 1;
        assert(s@ =~= old(s)@ + Seq::new(i as nat, |k: int| '0'));
    }
}

/// Appends `n` in decimal, zero-padded to `width` characters.
pub fn push_dec_width(s: &mut String, n: usize, width: usize)
    ensures
        final(s)@ == old(s)@ + dec_width(n as nat, width as nat),
{
    let len = dec_len(n);
    if len < width {
        push_zeros(s, width - len);
    }
    push_dec(s, n);
    assert(final(s)@ =~= old(s)@ + dec_width(n as nat, width as nat));
}

/// Appends `n` in upper-case hexadecimal, zero-padded to `width` characters.
pub fn push_hex_width(s: &mut String, n: usize, width: usize)
    ensures
        final(s)@ == old(s)@ + hex_width(n as nat, width as nat),
{
    let len = hex_len(n);
    if len < width {
        push_zeros(s, width - len);
    }
    push_hex(s, n);
    assert(final(s)@ =~= old(s)@ + hex_width(n as nat, width as nat));
}

/// Decimal rendering of `n` as a new string.
pub fn dec_string(n: usize) -> (s: String)
    ensures
        s@ == dec(n as nat),
{
    let mut s = String::new();
    push_dec(&mut s, n);
    assert(s@ =~= dec(n as nat));
    s
}

/// Joins `lines` with `'\n'` between them.
pub fn join_with_newlines(lines: &Vec<String>) -> (s: String)
    ensures
        s@ == join_lines(lines@.map_values(|l: String| l@)),
{
    let ghost views = lines@.map_values(|l: String| l@);
    let mut s = String::new();
    let mut i: usize = 0;
    while i < lines.len()
        invariant
            i <= lines.len(),
            views == lines@.map_values(|l: String| l@),
            s@ == join_lines(views.take(i as int)),
        decreases lines.len() - i,
    {
        if i > 0 {
            push_char(&mut s, '\n');
        }
        s.append(lines[i].as_str());
        i += 1;
        assert(views.take(i as int).drop_last() =~= views.take(i - 1));
    }
    assert(views.take(lines.len() as int) =~= views);
    s
}

} // verus!
