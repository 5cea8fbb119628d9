//! Reading back the machine-readable slot layout of a metadata sidecar.
use vstd::prelude::*;
use crate::bank::{BankLayout, BankLayoutView, SlotSpec, SlotSpecView};
use crate::text::{chars_of, dec_digits, digit_char, string_from_chars};
use std::collections::HashMap;

verus! {

/// Offset of the first `c` in `s`, or `s.len()` when there is none.
pub open spec fn first_of(s: Seq<char>, c: char) -> nat
    decreases s.len(),
{
    if s.len() == 0 {
        0
    } else if s[0] == c {
        0
    } else {
        1 + first_of(s.drop_first(), c)
    }
}

/// `m` is the offset of the first `c` in `s` (or `s.len()`) exactly when no
/// earlier character is `c` and the one at `m`, if any, is.
pub proof fn lemma_first_of(s: Seq<char>, c: char, m: int)
    requires
        0 <= m <= s.len(),
        forall|k: int| 0 <= k < m ==> s[k] != c,
        m < s.len() ==> s[m] == c,
    ensures
        first_of(s, c) == m,
    decreases s.len(),
{
    if s.len() > 0 && m > 0 {
        assert forall|k: int| 0 <= k < m - 1 implies s.drop_first()[k] != c by {
            assert(s.drop_first()[k] == s[k + 1]);
        }
        lemma_first_of(s.drop_first(), c, m - 1);
    }
}

pub proof fn lemma_first_of_bounds(s: Seq<char>, c: char)
    ensures
        first_of(s, c) <= s.len(),
        forall|k: int| 0 <= k < first_of(s, c) ==> s[k] != c,
        first_of(s, c) < s.len() ==> s[first_of(s, c) as int] == c,
    decreases s.len(),
{
    if s.len() > 0 && s[0] != c {
        lemma_first_of_bounds(s.drop_first(), c);
        assert forall|k: int| 0 <= k < first_of(s, c) implies s[k] != c by {
            if k > 0 {
                assert(s[k] == s.drop_first()[k - 1]);
            }
        }
    }
}

/// Position of the end of the line that starts at `from`: the next `'\n'`,
/// or the end of the text.
pub open spec fn line_end(s: Seq<char>, from: int) -> int {
    from + first_of(s.skip(from), '\n')
}

/// The line that starts at `from`, without its line ending (`"\n"` or `"\r\n"`).
pub open spec fn line_at(s: Seq<char>, from: int) -> Seq<char> {
    let end = line_end(s, from);
    let raw = s.subrange(from, end);
    if end < s.len() && raw.len() > 0 && raw.last() == '\r' {
        raw.drop_last()
    } else {
        raw
    }
}

/// The lines of `s` from position `from` on, as `str::lines` yields them.
pub open spec fn lines_from(s: Seq<char>, from: int) -> Seq<Seq<char>>
    decreases s.len() - from,
{
    if from < 0 || from >= s.len() {
        Seq::empty()
    } else {
        proof {
            lemma_first_of_bounds(s.skip(from), '\n');
        }
        let end = line_end(s, from);
        if end >= s.len() {
            seq![line_at(s, from)]
        } else {
            seq![line_at(s, from)] + lines_from(s, end + 1)
        }
    }
}

/// The lines of `s`, as `str::lines` yields them.
pub open spec fn text_lines(s: Seq<char>) -> Seq<Seq<char>> {
    lines_from(s, 0)
}

/// `s` split on `'|'` into at most `n` parts, the last part keeping any
/// further bars (`str::splitn`).
pub open spec fn split_bars(s: Seq<char>, n: nat) -> Seq<Seq<char>>
    decreases n,
{
    let i = first_of(s, '|');
    if n <= 1 || i >= s.len() {
        seq![s]
    } else {
        seq![s.take(i as int)] + split_bars(s.skip(i as int + 1), (n - 1) as nat)
    }
}

pub open spec fn is_digit(c: char) -> bool {
    48 <= c as u32 <= 57
}

/// The value of a run of decimal digits.
pub open spec fn digits_value(s: Seq<char>) -> nat
    decreases s.len(),
{
    if s.len() == 0 {
        0
    } else {
        digits_value(s.drop_last()) * 10 + (s.last() as u32 - 48) as nat
    }
}

/// `s` without a leading `+`.
pub open spec fn strip_plus(s: Seq<char>) -> Seq<char> {
    if s.len() > 0 && s[0] == '+' {
        s.drop_first()
    } else {
        s
    }
}

/// Whether `d` is one or more decimal digits.
pub open spec fn all_digits(d: Seq<char>) -> bool {
    d.len() > 0 && forall|i: int| 0 <= i < d.len() ==> #[trigger] is_digit(d[i])
}

/// `s` parsed as a `usize` the way `str::parse` does: an optional `+`, then
/// one or more decimal digits whose value fits.
pub open spec fn parse_usize(s: Seq<char>) -> Option<usize> {
    let d = strip_plus(s);
    if all_digits(d) && digits_value(d) <= usize::MAX {
        Some(digits_value(d) as usize)
    } else {
        None
    }
}

/// The layout recorded so far for `bank`, or an empty one.
pub open spec fn entry_or_default(m: Map<usize, BankLayoutView>, bank: usize) -> BankLayoutView {
    if m.contains_key(bank) {
        m[bank]
    } else {
        BankLayoutView { slots: Seq::empty(), remainder_label: Seq::empty() }
    }
}

/// Whether `line` starts with `prefix`.
pub open spec fn starts_with(line: Seq<char>, prefix: Seq<char>) -> bool {
    line.len() >= prefix.len() && line.take(prefix.len() as int) == prefix
}

/// The effect of one sidecar line on the layouts read so far: a well-formed
/// `slot|bank|index|len|blank|label` line appends a slot to its bank, a
/// well-formed `free|bank|label` line names the bank's free space, and any
/// other line is ignored.
pub open spec fn apply_line(m: Map<usize, BankLayoutView>, line: Seq<char>) -> Map<usize, BankLayoutView> {
    if starts_with(line, "slot|"@) {
        let parts = split_bars(line.skip(5), 5);
        if parts.len() == 5 && parse_usize(parts[0]) is Some && parse_usize(parts[2]) is Some {
            let bank = parse_usize(parts[0])->Some_0;
            let entry = entry_or_default(m, bank);
            m.insert(
                bank,
                BankLayoutView {
                    slots: entry.slots.push(
                        SlotSpecView {
                            len: parse_usize(parts[2])->Some_0,
                            label: parts[4],
                            blank: parts[3] == "1"@,
                        },
                    ),
                    remainder_label: entry.remainder_label,
                },
            )
        } else {
            m
        }
    } else if starts_with(line, "free|"@) {
        let parts = split_bars(line.skip(5), 2);
        if parts.len() == 2 && parse_usize(parts[0]) is Some {
            let bank = parse_usize(parts[0])->Some_0;
            let entry = entry_or_default(m, bank);
            m.insert(bank, BankLayoutView { slots: entry.slots, remainder_label: parts[1] })
        } else {
            m
        }
    } else {
        m
    }
}

/// The layouts that a run of sidecar lines records, read in order.
pub open spec fn parse_lines(lines: Seq<Seq<char>>) -> Map<usize, BankLayoutView>
    decreases lines.len(),
{
    if lines.len() == 0 {
        Map::empty()
    } else {
        apply_line(parse_lines(lines.drop_last()), lines.last())
    }
}

/// The layouts that the text of a sidecar records.
pub open spec fn parse_layout_text(s: Seq<char>) -> Map<usize, BankLayoutView> {
    parse_lines(text_lines(s))
}

/// The contents of a map of layouts.
pub open spec fn layouts_view(m: Map<usize, BankLayout>) -> Map<usize, BankLayoutView> {
    Map::new(|k: usize| m.contains_key(k), |k: usize| m[k]@)
}

/// Decimal renderings are digits whose value is the number rendered.
pub proof fn lemma_dec_digits_value(n: nat)
    ensures
        all_digits(dec_digits(n)),
        digits_value(dec_digits(n)) == n,
        first_of(dec_digits(n), '|') == dec_digits(n).len(),
        dec_digits(n)[0] != '+',
    decreases n,
{
    let d = dec_digits(n);
    if n < 10 {
        assert(d =~= seq![digit_char(n)]);
        assert(digit_char(n) as u32 == n + 48);
        assert(d.drop_last() =~= Seq::<char>::empty());
        assert(digits_value(d.drop_last()) == 0);
        assert(digits_value(d) == n);
        lemma_first_of(d, '|', d.len() as int);
    } else {
        lemma_dec_digits_value(n / 10);
        let prev = dec_digits(n / 10);
        assert(d == prev.push(digit_char(n % 10)));
        assert(digit_char(n % 10) as u32 == n % 10 + 48);
        assert(d.drop_last() =~= prev);
        vstd::arithmetic::div_mod::lemma_fundamental_div_mod(n as int, 10);
        assert(digits_value(d) == digits_value(prev) * 10 + n % 10);
        assert(digits_value(d) == n);
        assert(forall|i: int| 0 <= i < prev.len() ==> d[i] == prev[i]);
        lemma_first_of_bounds(prev, '|');
        lemma_first_of(d, '|', d.len() as int);
    }
}

/// Parsing the decimal rendering of a `usize` gives it back.
pub proof fn lemma_parse_dec(n: usize)
    ensures
        parse_usize(dec_digits(n as nat)) == Some(n),
{
    lemma_dec_digits_value(n as nat);
    assert(strip_plus(dec_digits(n as nat)) == dec_digits(n as nat));
}

/// Position of the first `c` in `chars[from..to]`, or `to`.
fn find_char(chars: &Vec<char>, from: usize, to: usize, c: char) -> (pos: usize)
    requires
        from <= to <= chars@.len(),
    ensures
        pos == from + first_of(chars@.subrange(from as int, to as int), c),
        from <= pos <= to,
{
    let mut i = from;
    while i < to
        invariant
            from <= i <= to <= chars@.len(),
            forall|k: int| from <= k < i ==> chars@[k] != c,
        ensures
            from <= i <= to,
            forall|k: int| from <= k < i ==> chars@[k] != c,
            i < to ==> chars@[i as int] == c,
        decreases to - i,
    {
        if chars[i] == c {
            break;
        }
        i += 1;
    }
    proof {
        lemma_first_of(chars@.subrange(from as int, to as int), c, i - from);
    }
    i
}

proof fn lemma_digits_prefix(s: Seq<char>, k: int)
    requires
        0 <= k < s.len(),
    ensures
        digits_value(s.take(k + 1)) == digits_value(s.take(k)) * 10 + (s[k] as u32 - 48) as nat,
{
    assert(s.take(k + 1).drop_last() =~= s.take(k));
}

proof fn lemma_digits_monotone(s: Seq<char>, k: int)
    requires
        0 <= k <= s.len(),
        forall|i: int| 0 <= i < s.len() ==> is_digit(s[i]),
    ensures
        digits_value(s.take(k)) <= digits_value(s),
    decreases s.len() - k,
{
    if k < s.len() {
        lemma_digits_prefix(s, k);
        lemma_digits_monotone(s, k + 1);
        assert(s.take(s.len() as int) =~= s);
    } else {
        assert(s.take(k) =~= s);
    }
}

proof fn lemma_parse_rejects(s: Seq<char>, d: Seq<char>, k: int)
    requires
        d == strip_plus(s),
        0 <= k < d.len(),
        !is_digit(d[k]),
    ensures
        parse_usize(s) is None,
{
}

/// `chars[from..to]` parsed as a `usize`.
fn parse_number(chars: &Vec<char>, from: usize, to: usize) -> (value: Option<usize>)
    requires
        from <= to <= chars@.len(),
    ensures
        value == parse_usize(chars@.subrange(from as int, to as int)),
{
    let ghost s = chars@.subrange(from as int, to as int);
    let mut start = from;
    if from < to && chars[from] == '+' {
        start = from + 1;
    }
    let ghost d = chars@.subrange(start as int, to as int);
    assert(d =~= strip_plus(s));
    if start == to {
        return None;
    }
    let mut value: usize = 0;
    let mut i = start;
    assert(d.take(0) =~= Seq::<char>::empty());
    while i < to
        invariant
            from <= start <= i <= to <= chars@.len(),
            d == chars@.subrange(start as int, to as int),
            s == chars@.subrange(from as int, to as int),
            d == strip_plus(s),
            forall|k: int| 0 <= k < i - start ==> is_digit(d[k]),
            value == digits_value(d.take(i - start)),
        decreases to - i,
    {
        let code = chars[i] as u32;
        if code < 48 || code > 57 {
            assert(d[i - start] == chars@[i as int]);
            assert(code == d[i - start] as u32);
            assert(!is_digit(d[i - start]));
            proof {
                lemma_parse_rejects(s, d, (i - start) as int);
            }
            return None;
        }
        proof {
            lemma_digits_prefix(d, i - start);
        }
        let digit_value = (code - 48) as usize;
        assert(digits_value(d.take(i - start + 1)) == value * 10 + digit_value);
        let next = match value.checked_mul(10) {
            Some(v) => v.checked_add(digit_value),
            None => None,
        };
        match next {
            Some(v) => {
                value = v;
            },
            None => {
                assert(digits_value(d.take(i - start + 1)) > usize::MAX);
                proof {
                    if forall|k: int| 0 <= k < d.len() ==> is_digit(d[k]) {
                        lemma_digits_monotone(d, i - start + 1);
                    }
                }
                return None;
            },
        }
        i += 1;
    }
    assert(d.take(d.len() as int) =~= d);
    Some(value)
}

/// Whether `chars[from..]` starts with `prefix`.
fn has_prefix(chars: &Vec<char>, from: usize, to: usize, prefix: &str) -> (found: bool)
    requires
        from <= to <= chars@.len(),
    ensures
        found == starts_with(chars@.subrange(from as int, to as int), prefix@),
{
    let n = prefix.unicode_len();
    if to - from < n {
        return false;
    }
    let mut i: usize = 0;
    while i < n
        invariant
            n == prefix@.len(),
            from + n <= to <= chars@.len(),
            i <= n,
            forall|k: int| 0 <= k < i ==> chars@[from + k] == prefix@[k],
        decreases n - i,
    {
        if chars[from + i] != prefix.get_char(i) {
            assert(chars@.subrange(from as int, to as int).take(n as int)[i as int] != prefix@[i as int]);
            return false;
        }
        i += 1;
    }
    assert(chars@.subrange(from as int, to as int).take(n as int) =~= prefix@);
    true
}

/// The ranges of `chars[from..to]` split on `'|'` into at most `n` parts.
fn field_ranges(chars: &Vec<char>, from: usize, to: usize, n: usize) -> (ranges: Vec<(usize, usize)>)
    requires
        from <= to <= chars@.len(),
        n >= 1,
    ensures
        ranges@.len() == split_bars(chars@.subrange(from as int, to as int), n as nat).len(),
        forall|k: int|
            0 <= k < ranges@.len() ==> from <= (#[trigger] ranges@[k]).0 <= ranges@[k].1 <= to
                && chars@.subrange(ranges@[k].0 as int, ranges@[k].1 as int) == split_bars(
                chars@.subrange(from as int, to as int),
                n as nat,
            )[k],
    decreases n,
{
    let ghost s = chars@.subrange(from as int, to as int);
    let bar = find_char(chars, from, to, '|');
    let mut ranges: Vec<(usize, usize)> = Vec::new();
    if n <= 1 || bar >= to {
        ranges.push((from, to));
        return ranges;
    }
    ranges.push((from, bar));
    let rest = field_ranges(chars, bar + 1, to, n - 1);
    assert(s.skip(bar - from + 1) =~= chars@.subrange(bar + 1, to as int));
    assert(s.take(bar - from) =~= chars@.subrange(from as int, bar as int));
    let mut k: usize = 0;
    while k < rest.len()
        invariant
            k <= rest@.len(),
            ranges@.len() == k + 1,
            ranges@[0] == (from, bar),
            forall|j: int| 1 <= j < ranges@.len() ==> #[trigger] ranges@[j] == rest@[j - 1],
        decreases rest@.len() - k,
    {
        ranges.push(rest[k]);
        k += 1;
    }
    ranges
}

/// Applies the line `chars[from..to]` to the layouts read so far.
fn apply_line_exec(layout: &mut HashMap<usize, BankLayout>, chars: &Vec<char>, from: usize, to: usize)
    requires
        from <= to <= chars@.len(),
    ensures
        layouts_view(final(layout)@) == apply_line(
            layouts_view(old(layout)@),
            chars@.subrange(from as int, to as int),
        ),
{
    broadcast use vstd::std_specs::hash::group_hash_axioms;

    let ghost line = chars@.subrange(from as int, to as int);
    if has_prefix(chars, from, to, "slot|") {
        proof {
            reveal_strlit("slot|");
        }
        assert(line.skip(5) =~= chars@.subrange(from + 5, to as int));
        let parts = field_ranges(chars, from + 5, to, 5);
        let ghost fields = split_bars(line.skip(5), 5);
        if parts.len() == 5 {
            let bank = parse_number(chars, parts[0].0, parts[0].1);
            let len = parse_number(chars, parts[2].0, parts[2].1);
            assert(bank == parse_usize(fields[0]));
            assert(len == parse_usize(fields[2]));
            if let (Some(bank), Some(len)) = (bank, len) {
                let blank = has_prefix(chars, parts[3].0, parts[3].1, "1") && parts[3].1 - parts[3].0 == 1;
                proof {
                    reveal_strlit("1");
                    let f = chars@.subrange(parts[3].0 as int, parts[3].1 as int);
                    assert(f == fields[3]);
                    if f.len() == 1 && starts_with(f, "1"@) {
                        assert(f =~= f.take(1));
                    }
                    if f == "1"@ {
                        assert(f.take(1) =~= f);
                    }
                    assert(blank == (fields[3] == "1"@));
                }
                let label = string_from_chars(
                    vstd::slice::slice_subrange(chars.as_slice(), parts[4].0, parts[4].1),
                );
                assert(label@ == fields[4]);
                let ghost view_before = layouts_view(layout@);
                let ghost entry_before = entry_or_default(view_before, bank);
                let mut entry = match layout.remove(&bank) {
                    Some(e) => e,
                    None => BankLayout::default(),
                };
                assert(entry@.slots =~= entry_before.slots);
                assert(entry@.remainder_label =~= entry_before.remainder_label);
                entry.slots.push(SlotSpec { len, label, blank });
                assert(entry@.slots =~= entry_before.slots.push(
                    SlotSpecView { len, label: fields[4], blank },
                ));
                layout.insert(bank, entry);
                assert(layouts_view(layout@) =~= apply_line(view_before, line));
                return;
            }
        }
        assert(layouts_view(layout@) =~= apply_line(layouts_view(old(layout)@), line));
        return;
    }
    if has_prefix(chars, from, to, "free|") {
        proof {
            reveal_strlit("free|");
            reveal_strlit("slot|");
            assert(line.take(5)[0] == 'f');
        }
        assert(line.skip(5) =~= chars@.subrange(from + 5, to as int));
        let parts = field_ranges(chars, from + 5, to, 2);
        let ghost fields = split_bars(line.skip(5), 2);
        if parts.len() == 2 {
            let bank = parse_number(chars, parts[0].0, parts[0].1);
            assert(bank == parse_usize(fields[0]));
            if let Some(bank) = bank {
                let label = string_from_chars(
                    vstd::slice::slice_subrange(chars.as_slice(), parts[1].0, parts[1].1),
                );
                assert(label@ == fields[1]);
                let ghost view_before = layouts_view(layout@);
                let ghost entry_before = entry_or_default(view_before, bank);
                let mut entry = match layout.remove(&bank) {
                    Some(e) => e,
                    None => BankLayout::default(),
                };
                assert(entry@.slots =~= entry_before.slots);
                entry.remainder_label = label;
                layout.insert(bank, entry);
                assert(layouts_view(layout@) =~= apply_line(view_before, line));
                return;
            }
        }
        assert(layouts_view(layout@) =~= apply_line(layouts_view(old(layout)@), line));
        return;
    }
    assert(layouts_view(layout@) =~= apply_line(layouts_view(old(layout)@), line));
}

/// Parses the machine-readable `slot|`/`free|` lines emitted by
/// `ProjectImage::metadata_text` back into a per-bank slot layout.
pub fn parse_slot_layout(text: &str) -> (layout: HashMap<usize, BankLayout>)
    ensures
        layouts_view(layout@) == parse_layout_text(text@),
{
    broadcast use vstd::std_specs::hash::group_hash_axioms;

    let chars = chars_of(text);
    let n = chars.len();
    let mut layout: HashMap<usize, BankLayout> = HashMap::new();
    let mut from: usize = 0;
    let ghost mut done: Seq<Seq<char>> = Seq::empty();
    assert(layouts_view(layout@) =~= parse_lines(done));
    assert(done + lines_from(chars@, 0) =~= text_lines(text@));
    while from < n
        invariant
            n == chars@.len(),
            chars@ == text@,
            from <= n,
            done + lines_from(chars@, from as int) == text_lines(text@),
            layouts_view(layout@) == parse_lines(done),
        decreases n - from,
    {
        let end = find_char(&chars, from, n, '\n');
        assert(chars@.subrange(from as int, n as int) =~= chars@.skip(from as int));
        let mut stop = end;
        if end < n && stop > from && chars[stop - 1] == '\r' {
            stop = stop - 1;
        }
        let ghost line = chars@.subrange(from as int, stop as int);
        assert(line =~= line_at(chars@, from as int));
        apply_line_exec(&mut layout, &chars, from, stop);
        proof {
            assert(done.push(line).drop_last() =~= done);
            assert(lines_from(chars@, from as int) == seq![line] + lines_from(chars@, end + 1));
            assert(done.push(line) + lines_from(chars@, end + 1) =~= done + lines_from(chars@, from as int));
            done = done.push(line);
        }
        if end == n {
            from = n;
        } else {
            from = end + 1;
        }
    }
    assert(done + lines_from(chars@, from as int) =~= done);
    layout
}

/// What follows the stem of a binary's file name in the name of its
/// metadata sidecar.
pub open spec fn sidecar_suffix() -> Seq<char> {
    seq!['.', 'm', 'e', 't', 'a', 'd', 'a', 't', 'a', '.', 't', 'x', 't']
}

/// `e` is where the extension of the file name `name` begins: the offset of
/// its last `.` when that is not its first character; otherwise (and for the
/// name `..`) the name has no extension and `e` is its length.
pub open spec fn stem_end(name: Seq<char>, e: int) -> bool {
    if name =~= seq!['.', '.'] {
        e == 2
    } else if exists|i: int| 0 < i < name.len() && name[i] == '.' {
        &&& 0 < e < name.len()
        &&& name[e] == '.'
        &&& forall|j: int| e < j < name.len() ==> name[j] != '.'
    } else {
        e == name.len()
    }
}

/// The file name of the metadata sidecar that goes with a binary named
/// `file_name`: its extension, if it has one, replaced by `metadata.txt`.
pub fn metadata_file_name(file_name: &str) -> (name: String)
    ensures
        exists|e: int| stem_end(file_name@, e) && name@ == file_name@.take(e) + sidecar_suffix(),
{
    let chars = chars_of(file_name);
    let n = chars.len();
    let mut k: usize = n;
    while k > 1 && chars[k - 1] != '.'
        invariant
            chars@ == file_name@,
            n == chars@.len(),
            k <= n,
            forall|j: int| k <= j < n ==> chars@[j] != '.',
        decreases k,
    {
        k -= 1;
    }
    let e: usize = if n == 2 && chars[0] == '.' && chars[1] == '.' {
        2
    } else if k > 1 {
        k - 1
    } else {
        n
    };
    proof {
        if !(file_name@ =~= seq!['.', '.']) && k <= 1 {
            assert(!exists|i: int| 0 < i < n && file_name@[i] == '.');
        }
        if n == 2 && file_name@[0] == '.' && file_name@[1] == '.' {
            assert(file_name@ =~= seq!['.', '.']);
        }
    }
    assert(stem_end(file_name@, e as int));
    let mut out: Vec<char> = Vec::new();
    let mut i: usize = 0;
    while i < e
        invariant
            chars@ == file_name@,
            e <= n == chars@.len(),
            i <= e,
            out@ == chars@.take(i as int),
        decreases e - i,
    {
        out.push(chars[i]);
        i += 1;
        assert(out@ =~= chars@.take(i as int));
    }
    let suffix = chars_of(".metadata.txt");
    proof {
        reveal_strlit(".metadata.txt");
    }
    assert(suffix@ == sidecar_suffix());
    let mut j: usize = 0;
    while j < suffix.len()
        invariant
            suffix@ == sidecar_suffix(),
            j <= suffix@.len(),
            out@ == file_name@.take(e as int) + suffix@.take(j as int),
        decreases suffix@.len() - j,
    {
        out.push(suffix[j]);
        j += 1;
        assert(out@ =~= file_name@.take(e as int) + suffix@.take(j as int));
    }
    assert(suffix@.take(j as int) =~= suffix@);
    string_from_chars(&out)
}

} // verus!
