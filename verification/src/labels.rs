//! Short texts shown to the user, and the parsing of the pad-byte field.
use vstd::prelude::*;
use crate::text::{chars_of, dec, push_dec, string_from_chars};

verus! {

/// Whether `c` is white space (`char::is_whitespace`).
pub open spec fn is_white(c: char) -> bool {
    let n = c as u32;
    (9 <= n <= 13) || n == 32 || n == 0x85 || n == 0xA0 || n == 0x1680 || (0x2000 <= n <= 0x200A) || n
        == 0x2028 || n == 0x2029 || n == 0x202F || n == 0x205F || n == 0x3000
}

/// Offset of the first character of `s` that is not white space, or `s.len()`.
pub open spec fn lead_white(s: Seq<char>) -> nat
    decreases s.len(),
{
    if s.len() == 0 || !is_white(s[0]) {
        0
    } else {
        1 + lead_white(s.drop_first())
    }
}

/// Number of white-space characters at the end of `s`.
pub open spec fn trail_white(s: Seq<char>) -> nat
    decreases s.len(),
{
    if s.len() == 0 || !is_white(s.last()) {
        0
    } else {
        1 + trail_white(s.drop_last())
    }
}

/// `s` without leading and trailing white space (`str::trim`).
pub open spec fn trimmed(s: Seq<char>) -> Seq<char> {
    if lead_white(s) == s.len() {
        Seq::empty()
    } else {
        s.subrange(lead_white(s) as int, s.len() - trail_white(s))
    }
}

/// ASCII lower case of one character.
pub open spec fn ascii_lower(c: char) -> char {
    if 65 <= c as u32 <= 90 {
        ((c as u32) + 32) as char
    } else {
        c
    }
}

/// ASCII upper case of one character.
pub open spec fn ascii_upper(c: char) -> char {
    if 97 <= c as u32 <= 122 {
        ((c as u32) - 32) as char
    } else {
        c
    }
}

/// ASCII lower case of a string (`str::to_ascii_lowercase`).
pub open spec fn ascii_lower_seq(s: Seq<char>) -> Seq<char> {
    s.map_values(|c: char| ascii_lower(c))
}

/// Whether `s` ends with `suffix`.
pub open spec fn ends_with(s: Seq<char>, suffix: Seq<char>) -> bool {
    s.len() >= suffix.len() && s.skip(s.len() - suffix.len()) == suffix
}

/// A byte count for an unused area: whole KiB as `Nkb`, else `Nb`.
pub open spec fn unused_size_text(bytes: nat) -> Seq<char> {
    if bytes % 1024 == 0 {
        dec(bytes / 1024) + "kb"@
    } else {
        dec(bytes) + "b"@
    }
}

/// A bank size: whole MiB as `NM`, whole KiB as `Nk`, else `NB`.
pub open spec fn layout_size_text(size: nat) -> Seq<char> {
    if size % (1024 * 1024) == 0 {
        dec(size / (1024 * 1024)) + "M"@
    } else if size % 1024 == 0 {
        dec(size / 1024) + "k"@
    } else {
        dec(size) + "B"@
    }
}

/// The default file name for extracting a slot named `label`.
pub open spec fn extract_name(label: Seq<char>) -> Seq<char> {
    let base = if trimmed(label).len() == 0 {
        "rom"@
    } else {
        trimmed(label)
    };
    if ends_with(ascii_lower_seq(base), ".rom"@) || ends_with(ascii_lower_seq(base), ".bin"@) {
        base
    } else {
        base + ".bin"@
    }
}

/// The value of a hexadecimal digit.
pub open spec fn hex_value(c: char) -> int {
    let n = c as u32;
    if 48 <= n <= 57 {
        n - 48
    } else if 65 <= n <= 70 {
        n - 55
    } else if 97 <= n <= 102 {
        n - 87
    } else {
        -1
    }
}

/// The value of a run of hexadecimal digits.
pub open spec fn hex_digits_value(s: Seq<char>) -> nat
    decreases s.len(),
{
    if s.len() == 0 {
        0
    } else {
        hex_digits_value(s.drop_last()) * 16 + hex_value(s.last()) as nat
    }
}

/// `s` without a leading `+`.
pub open spec fn without_plus(s: Seq<char>) -> Seq<char> {
    if s.len() > 0 && s[0] == '+' {
        s.drop_first()
    } else {
        s
    }
}

/// Whether `d` is one or more hexadecimal digits.
pub open spec fn all_hex(d: Seq<char>) -> bool {
    d.len() > 0 && forall|i: int| 0 <= i < d.len() ==> #[trigger] hex_value(d[i]) >= 0
}

/// `s` parsed as a `u8` in base 16 (`u8::from_str_radix(s, 16)`).
pub open spec fn parse_hex_u8(s: Seq<char>) -> Option<u8> {
    let d = without_plus(s);
    if all_hex(d) && hex_digits_value(d) <= 255 {
        Some(hex_digits_value(d) as u8)
    } else {
        None
    }
}

/// The pad-byte field's text without blanks and without a `0x`/`0X` prefix.
pub open spec fn pad_digits(text: Seq<char>) -> Seq<char> {
    let t = trimmed(text);
    if t.len() >= 2 && t[0] == '0' && (t[1] == 'x' || t[1] == 'X') {
        t.skip(2)
    } else {
        t
    }
}

/// Error text for a pad byte that does not parse.
pub open spec fn pad_byte_message() -> Seq<char> {
    "Pad byte must be hexadecimal, for example FF or 0xFF"@
}

proof fn lemma_lead_white(s: Seq<char>, m: int)
    requires
        0 <= m <= s.len(),
        forall|k: int| 0 <= k < m ==> is_white(#[trigger] s[k]),
        m < s.len() ==> !is_white(s[m]),
    ensures
        lead_white(s) == m,
    decreases s.len(),
{
    if s.len() > 0 && m > 0 {
        assert forall|k: int| 0 <= k < m - 1 implies is_white(#[trigger] s.drop_first()[k]) by {
            assert(s.drop_first()[k] == s[k + 1]);
        }
        lemma_lead_white(s.drop_first(), m - 1);
    }
}

proof fn lemma_trail_white(s: Seq<char>, m: int)
    requires
        0 <= m <= s.len(),
        forall|k: int| s.len() - m <= k < s.len() ==> is_white(#[trigger] s[k]),
        m < s.len() ==> !is_white(s[s.len() - m - 1]),
    ensures
        trail_white(s) == m,
    decreases s.len(),
{
    if s.len() > 0 && m > 0 {
        assert forall|k: int| s.drop_last().len() - (m - 1) <= k < s.drop_last().len() implies is_white(
            #[trigger] s.drop_last()[k],
        ) by {
            assert(s.drop_last()[k] == s[k]);
        }
        lemma_trail_white(s.drop_last(), m - 1);
    }
}

/// Whether `c` is white space.
pub(crate) fn white(c: char) -> (w: bool)
    ensures
        w == is_white(c),
{
    let n = c as u32;
    (9 <= n && n <= 13) || n == 32 || n == 0x85 || n == 0xA0 || n == 0x1680 || (0x2000 <= n && n <= 0x200A)
        || n == 0x2028 || n == 0x2029 || n == 0x202F || n == 0x205F || n == 0x3000
}

/// The characters of `s` without leading and trailing white space.
pub(crate) fn trim_chars(s: &str) -> (t: Vec<char>)
    ensures
        t@ == trimmed(s@),
{
    let chars = chars_of(s);
    let n = chars.len();
    let mut start: usize = 0;
    while start < n && white(chars[start])
        invariant
            n == chars@.len(),
            start <= n,
            forall|k: int| 0 <= k < start ==> is_white(#[trigger] chars@[k]),
        decreases n - start,
    {
        start += 1;
    }
    proof {
        lemma_lead_white(chars@, start as int);
    }
    if start == n {
        return Vec::new();
    }
    let mut end = n;
    while end > start && white(chars[end - 1])
        invariant
            n == chars@.len(),
            start < n,
            start <= end <= n,
            !is_white(chars@[start as int]),
            forall|k: int| end <= k < n ==> is_white(#[trigger] chars@[k]),
        decreases end,
    {
        end -= 1;
    }
    proof {
        lemma_trail_white(chars@, (n - end) as int);
    }
    let mut t: Vec<char> = Vec::new();
    let mut i = start;
    while i < end
        invariant
            start <= i <= end <= n == chars@.len(),
            t@ == chars@.subrange(start as int, i as int),
        decreases end - i,
    {
        t.push(chars[i]);
        i += 1;
        assert(t@ =~= chars@.subrange(start as int, i as int));
    }
    t
}

/// ASCII lower case of one character.
fn lower_char(c: char) -> (l: char)
    ensures
        l == ascii_lower(c),
{
    let n = c as u32;
    if 65 <= n && n <= 90 {
        ((n + 32) as u8) as char
    } else {
        c
    }
}

/// A byte count for an unused area: whole KiB as `Nkb`, else `Nb`.
pub fn unused_size_label(bytes: usize) -> (label: String)
    ensures
        label@ == unused_size_text(bytes as nat),
{
    let mut label = String::new();
    if bytes % 1024 == 0 {
        push_dec(&mut label, bytes / 1024);
        label.append("kb");
    } else {
        push_dec(&mut label, bytes);
        label.append("b");
    }
    label
}

/// A bank size: whole MiB as `NM`, whole KiB as `Nk`, else `NB`.
pub fn layout_size_label(unit_size: usize) -> (label: String)
    ensures
        label@ == layout_size_text(unit_size as nat),
{
    let mut label = String::new();
    if unit_size % (1024 * 1024) == 0 {
        push_dec(&mut label, unit_size / (1024 * 1024));
        label.append("M");
    } else if unit_size % 1024 == 0 {
        push_dec(&mut label, unit_size / 1024);
        label.append("k");
    } else {
        push_dec(&mut label, unit_size);
        label.append("B");
    }
    label
}

/// Whether `s[..]` ends with `suffix` once ASCII lower-cased.
fn lower_ends_with(s: &Vec<char>, suffix: &str) -> (found: bool)
    ensures
        found == ends_with(ascii_lower_seq(s@), suffix@),
{
    let n = suffix.unicode_len();
    if s.len() < n {
        return false;
    }
    let slen = s.len();
    let offset = slen - n;
    let ghost lowered = ascii_lower_seq(s@);
    let mut i: usize = 0;
    while i < n
        invariant
            n == suffix@.len(),
            offset + n == slen,
            slen == s@.len(),
            lowered == ascii_lower_seq(s@),
            i <= n,
            forall|k: int| 0 <= k < i ==> lowered[offset + k] == suffix@[k],
        decreases n - i,
    {
        if lower_char(s[offset + i]) != suffix.get_char(i) {
            assert(lowered.skip(offset as int)[i as int] != suffix@[i as int]);
            return false;
        }
        i += 1;
    }
    assert(lowered.skip(offset as int) =~= suffix@);
    true
}

/// Builds an extract filename from a slot's name: keeps a `.rom`/`.bin`
/// extension if present, otherwise appends `.bin`.
pub fn extract_file_name(label: &str) -> (name: String)
    ensures
        name@ == extract_name(label@),
{
    let t = trim_chars(label);
    let base = if t.len() == 0 {
        proof {
            reveal_strlit("rom");
        }
        let mut r: Vec<char> = Vec::new();
        r.push('r');
        r.push('o');
        r.push('m');
        assert(r@ =~= "rom"@);
        r
    } else {
        t
    };
    let mut name = string_from_chars(base.as_slice());
    if lower_ends_with(&base, ".rom") || lower_ends_with(&base, ".bin") {
        name
    } else {
        name.append(".bin");
        name
    }
}

/// Keeps at most `max_chars` characters of `value`.
pub fn trim_to_char_limit(value: &mut String, max_chars: usize)
    ensures
        final(value)@ == if old(value)@.len() > max_chars {
            old(value)@.take(max_chars as int)
        } else {
            old(value)@
        },
{
    let chars = chars_of(value.as_str());
    if chars.len() > max_chars {
        let kept = vstd::slice::slice_subrange(chars.as_slice(), 0, max_chars);
        *value = string_from_chars(kept);
    }
}

/// The value of a hexadecimal digit, or `None`.
fn hex_digit_value(c: char) -> (v: Option<u8>)
    ensures
        match v {
            Some(d) => hex_value(c) >= 0 && d == hex_value(c),
            None => hex_value(c) < 0,
        },
{
    let n = c as u32;
    if 48 <= n && n <= 57 {
        Some((n - 48) as u8)
    } else if 65 <= n && n <= 70 {
        Some((n - 55) as u8)
    } else if 97 <= n && n <= 102 {
        Some((n - 87) as u8)
    } else {
        None
    }
}

proof fn lemma_hex_prefix(s: Seq<char>, k: int)
    requires
        0 <= k < s.len(),
    ensures
        hex_digits_value(s.take(k + 1)) == hex_digits_value(s.take(k)) * 16 + hex_value(s[k]) as nat,
{
    assert(s.take(k + 1).drop_last() =~= s.take(k));
}

proof fn lemma_hex_monotone(s: Seq<char>, k: int)
    requires
        0 <= k <= s.len(),
        forall|i: int| 0 <= i < s.len() ==> #[trigger] hex_value(s[i]) >= 0,
    ensures
        hex_digits_value(s.take(k)) <= hex_digits_value(s),
    decreases s.len() - k,
{
    if k < s.len() {
        lemma_hex_prefix(s, k);
        lemma_hex_monotone(s, k + 1);
    } else {
        assert(s.take(k) =~= s);
    }
}

proof fn lemma_hex_rejects(s: Seq<char>, k: int)
    requires
        0 <= k < without_plus(s).len(),
        hex_value(without_plus(s)[k]) < 0,
    ensures
        parse_hex_u8(s) is None,
{
}

/// Parses the pad-byte field: hexadecimal, with or without a `0x` prefix.
pub fn parse_pad_byte(text: &str) -> (result: Result<u8, String>)
    ensures
        match result {
            Ok(b) => parse_hex_u8(pad_digits(text@)) == Some(b),
            Err(e) => parse_hex_u8(pad_digits(text@)) is None && e@ == pad_byte_message(),
        },
{
    let t = trim_chars(text);
    let mut start: usize = 0;
    if t.len() >= 2 && t[0] == '0' && (t[1] == 'x' || t[1] == 'X') {
        start = 2;
    }
    let ghost digits = pad_digits(text@);
    assert(digits =~= t@.skip(start as int));
    if start < t.len() && t[start] == '+' {
        start = start + 1;
    }
    let ghost d = without_plus(digits);
    assert(d =~= t@.skip(start as int));
    if start == t.len() {
        return Err(String::from_str("Pad byte must be hexadecimal, for example FF or 0xFF"));
    }
    let mut value: usize = 0;
    let mut i = start;
    assert(d.take(0) =~= Seq::<char>::empty());
    while i < t.len()
        invariant
            start <= i <= t@.len(),
            d == t@.skip(start as int),
            d == without_plus(digits),
            digits == pad_digits(text@),
            value <= 255,
            forall|k: int| 0 <= k < i - start ==> #[trigger] hex_value(d[k]) >= 0,
            value == hex_digits_value(d.take(i - start)),
        decreases t@.len() - i,
    {
        match hex_digit_value(t[i]) {
            None => {
                proof {
                    lemma_hex_rejects(digits, i - start);
                }
                return Err(String::from_str("Pad byte must be hexadecimal, for example FF or 0xFF"));
            },
            Some(v) => {
                proof {
                    lemma_hex_prefix(d, i - start);
                }
                let next = value * 16 + v as usize;
                if next > 255 {
                    proof {
                        if all_hex(d) {
                            lemma_hex_monotone(d, i - start + 1);
                        }
                    }
                    return Err(String::from_str("Pad byte must be hexadecimal, for example FF or 0xFF"));
                }
                value = next;
            },
        }
        i += 1;
    }
    assert(d.take(d.len() as int) =~= d);
    Ok(value as u8)
}

} // verus!
