//! Name suggestions for a ROM, drawn from the printable text inside it.
use vstd::prelude::*;
use crate::labels::{ascii_lower, ascii_lower_seq, ascii_upper, is_white, white};
use crate::text::{chars_of, string_from_chars};

verus! {

/// Longest suggested name, in characters.
pub const ROM_NAME_MAX_CHARS: usize = 30;

/// Most suggestions offered for one ROM.
pub const ROM_NAME_SUGGESTION_LIMIT: usize = 30;

/// A byte shown as text: an ASCII graphic character or a space.
pub open spec fn is_printable(b: u8) -> bool {
    0x20 <= b <= 0x7E
}

/// End of the run of printable bytes that starts at `i`.
pub open spec fn printable_end(data: Seq<u8>, i: int) -> int
    decreases data.len() - i,
{
    if i < 0 || i >= data.len() || !is_printable(data[i]) {
        i
    } else {
        printable_end(data, i + 1)
    }
}

/// Bytes as the characters they encode in ASCII.
pub open spec fn ascii_text(bytes: Seq<u8>) -> Seq<char> {
    bytes.map_values(|b: u8| b as char)
}

/// The runs of at least four printable bytes in `data[i..]`, each with its
/// offset, in order.
pub open spec fn printable_runs(data: Seq<u8>, i: int) -> Seq<(int, Seq<char>)>
    decreases data.len() - i,
{
    if i < 0 || i >= data.len() {
        Seq::empty()
    } else if !is_printable(data[i]) {
        printable_runs(data, i + 1)
    } else {
        proof {
            lemma_printable_end(data, i);
        }
        let e = printable_end(data, i);
        (if e - i >= 4 {
            seq![(i, ascii_text(data.subrange(i, e)))]
        } else {
            Seq::empty()
        }) + printable_runs(data, e)
    }
}

pub proof fn lemma_printable_end(data: Seq<u8>, i: int)
    requires
        0 <= i,
    ensures
        i <= printable_end(data, i) <= if i <= data.len() {
            data.len() as int
        } else {
            i
        },
        forall|k: int| i <= k < printable_end(data, i) ==> is_printable(#[trigger] data[k]),
        printable_end(data, i) < data.len() ==> !is_printable(data[printable_end(data, i)]),
        0 <= i < data.len() && is_printable(data[i]) ==> printable_end(data, i) > i,
    decreases data.len() - i,
{
    if i < data.len() && is_printable(data[i]) {
        lemma_printable_end(data, i + 1);
    }
}

/// The ASCII letters.
pub open spec fn is_alpha(c: char) -> bool {
    (65 <= c as u32 <= 90) || (97 <= c as u32 <= 122)
}

/// The ASCII letters and digits.
pub open spec fn is_alnum(c: char) -> bool {
    is_alpha(c) || (48 <= c as u32 <= 57)
}

/// A word with its first letter upper case and the rest lower case (ASCII).
pub open spec fn title(word: Seq<char>) -> Seq<char> {
    if word.len() == 0 {
        Seq::empty()
    } else {
        seq![ascii_upper(ascii_lower(word[0]))] + ascii_lower_seq(word.skip(1))
    }
}

/// Words too common to name a ROM.
pub open spec fn low_value_words() -> Seq<Seq<char>> {
    seq![
        "the"@,
        "and"@,
        "for"@,
        "with"@,
        "from"@,
        "this"@,
        "that"@,
        "copyright"@,
        "error"@,
        "bytes"@,
        "basic"@,
        "rom"@,
        "version"@,
        "release"@,
        "reserved"@,
        "unknown"@,
    ]
}

/// Whether `word`, ignoring ASCII case, is too common to name a ROM.
pub open spec fn low_value(word: Seq<char>) -> bool {
    low_value_words().contains(ascii_lower_seq(word))
}

/// The bytes of `data[i..]` that are printable, from `i` up to the first that is not.
fn run_end(data: &[u8], i: usize) -> (e: usize)
    requires
        i <= data@.len(),
    ensures
        e == printable_end(data@, i as int),
{
    proof {
        lemma_printable_end(data@, i as int);
    }
    let mut e = i;
    while e < data.len() && 0x20 <= data[e] && data[e] <= 0x7E
        invariant
            i <= e <= data@.len(),
            printable_end(data@, e as int) == printable_end(data@, i as int),
        decreases data@.len() - e,
    {
        e += 1;
    }
    e
}

/// Runs of at least four printable bytes (ASCII graphic characters and
/// spaces), each with the offset where it starts.
pub fn printable_strings(data: &[u8]) -> (strings: Vec<(usize, String)>)
    ensures
        strings@.len() == printable_runs(data@, 0).len(),
        forall|k: int|
            0 <= k < strings@.len() ==> (#[trigger] strings@[k]).0 == printable_runs(data@, 0)[k].0
                && strings@[k].1@ == printable_runs(data@, 0)[k].1,
{
    let mut strings: Vec<(usize, String)> = Vec::new();
    let ghost mut found: Seq<(int, Seq<char>)> = Seq::empty();
    let mut i: usize = 0;
    while i < data.len()
        invariant
            i <= data@.len(),
            found + printable_runs(data@, i as int) == printable_runs(data@, 0),
            strings@.len() == found.len(),
            forall|k: int|
                0 <= k < strings@.len() ==> (#[trigger] strings@[k]).0 == found[k].0 && strings@[k].1@ == found[k].1,
        decreases data@.len() - i,
    {
        if !(0x20 <= data[i] && data[i] <= 0x7E) {
            i += 1;
        } else {
            let e = run_end(data, i);
            proof {
                lemma_printable_end(data@, i as int);
            }
            if e - i >= 4 {
                let mut text: Vec<char> = Vec::new();
                let mut k = i;
                while k < e
                    invariant
                        i <= k <= e <= data@.len(),
                        text@ == ascii_text(data@.subrange(i as int, k as int)),
                    decreases e - k,
                {
                    text.push(data[k] as char);
                    k += 1;
                    assert(text@ =~= ascii_text(data@.subrange(i as int, k as int)));
                }
                let s = string_from_chars(text.as_slice());
                strings.push((i, s));
                proof {
                    let entry = (i as int, ascii_text(data@.subrange(i as int, e as int)));
                    assert(found.push(entry) + printable_runs(data@, e as int) =~= found + printable_runs(
                        data@,
                        i as int,
                    ));
                    found = found.push(entry);
                }
            } else {
                assert(found + printable_runs(data@, e as int) =~= found + printable_runs(data@, i as int));
            }
            i = e;
        }
    }
    assert(found + printable_runs(data@, i as int) =~= found);
    strings
}

/// ASCII lower case of one character.
fn to_lower(c: char) -> (l: char)
    ensures
        l == ascii_lower(c),
{
    let n = c as u32;
    if 65 <= n && n <= 90 {
        ((n + 32) as u8) as char
    } else {
        c
    }
}

/// ASCII upper case of one character.
fn to_upper(c: char) -> (u: char)
    ensures
        u == ascii_upper(c),
{
    let n = c as u32;
    if 97 <= n && n <= 122 {
        ((n - 32) as u8) as char
    } else {
        c
    }
}

/// ASCII lower case of a run of characters.
fn lower_chars(chars: &[char]) -> (lower: Vec<char>)
    ensures
        lower@ == ascii_lower_seq(chars@),
{
    let mut lower: Vec<char> = Vec::new();
    let mut i: usize = 0;
    while i < chars.len()
        invariant
            i <= chars@.len(),
            lower@ == ascii_lower_seq(chars@.take(i as int)),
        decreases chars@.len() - i,
    {
        lower.push(to_lower(chars[i]));
        i += 1;
        assert(lower@ =~= ascii_lower_seq(chars@.take(i as int)));
    }
    assert(chars@.take(chars@.len() as int) =~= chars@);
    lower
}

/// Whether a run of characters spells `s`.
fn chars_are(chars: &[char], s: &str) -> (same: bool)
    ensures
        same == (chars@ == s@),
{
    let n = s.unicode_len();
    if chars.len() != n {
        return false;
    }
    let mut i: usize = 0;
    while i < n
        invariant
            n == s@.len(),
            n == chars@.len(),
            i <= n,
            forall|k: int| 0 <= k < i ==> chars@[k] == s@[k],
        decreases n - i,
    {
        if chars[i] != s.get_char(i) {
            return false;
        }
        i += 1;
    }
    assert(chars@ =~= s@);
    true
}

/// The title-case form of a word.
fn title_chars(word: &[char]) -> (titled: Vec<char>)
    ensures
        titled@ == title(word@),
{
    let mut titled: Vec<char> = Vec::new();
    if word.len() == 0 {
        return titled;
    }
    titled.push(to_upper(to_lower(word[0])));
    let mut i: usize = 1;
    while i < word.len()
        invariant
            1 <= i <= word@.len(),
            titled@ == seq![ascii_upper(ascii_lower(word@[0]))] + ascii_lower_seq(word@.subrange(1, i as int)),
        decreases word@.len() - i,
    {
        titled.push(to_lower(word[i]));
        i += 1;
        assert(titled@ =~= seq![ascii_upper(ascii_lower(word@[0]))] + ascii_lower_seq(
            word@.subrange(1, i as int),
        ));
    }
    assert(word@.subrange(1, word@.len() as int) =~= word@.skip(1));
    titled
}

/// A word with its first letter upper case and the rest lower case.
pub fn title_word(word: &str) -> (titled: String)
    ensures
        titled@ == title(word@),
{
    let chars = chars_of(word);
    let t = title_chars(chars.as_slice());
    string_from_chars(t.as_slice())
}

/// Whether a run of characters, ignoring ASCII case, is a common word.
fn low_value_chars(word: &[char]) -> (low: bool)
    ensures
        low == low_value(word@),
{
    let lower = lower_chars(word);
    let l = lower.as_slice();
    proof {
        reveal_strlit("the");
        reveal_strlit("and");
        reveal_strlit("for");
        reveal_strlit("with");
        reveal_strlit("from");
        reveal_strlit("this");
        reveal_strlit("that");
        reveal_strlit("copyright");
        reveal_strlit("error");
        reveal_strlit("bytes");
        reveal_strlit("basic");
        reveal_strlit("rom");
        reveal_strlit("version");
        reveal_strlit("release");
        reveal_strlit("reserved");
        reveal_strlit("unknown");
    }
    let low = chars_are(l, "the") || chars_are(l, "and") || chars_are(l, "for") || chars_are(l, "with")
        || chars_are(l, "from") || chars_are(l, "this") || chars_are(l, "that") || chars_are(l, "copyright")
        || chars_are(l, "error") || chars_are(l, "bytes") || chars_are(l, "basic") || chars_are(l, "rom")
        || chars_are(l, "version") || chars_are(l, "release") || chars_are(l, "reserved") || chars_are(
        l,
        "unknown",
    );
    proof {
        let words = low_value_words();
        if low {
            assert(words.contains(lower@));
        } else {
            assert forall|k: int| 0 <= k < words.len() implies words[k] != lower@ by {}
        }
    }
    low
}

/// Whether `word`, ignoring ASCII case, is too common to name a ROM.
pub fn is_low_value_word(word: &str) -> (low: bool)
    ensures
        low == low_value(word@),
{
    let chars = chars_of(word);
    low_value_chars(chars.as_slice())
}

/// End of the run of ASCII letters and digits that starts at `i`.
pub open spec fn alnum_end(s: Seq<char>, i: int) -> int
    decreases s.len() - i,
{
    if i < 0 || i >= s.len() || !is_alnum(s[i]) {
        i
    } else {
        alnum_end(s, i + 1)
    }
}

pub proof fn lemma_alnum_end(s: Seq<char>, i: int)
    requires
        0 <= i,
    ensures
        i <= alnum_end(s, i),
        i <= s.len() ==> alnum_end(s, i) <= s.len(),
        forall|k: int| i <= k < alnum_end(s, i) ==> is_alnum(#[trigger] s[k]),
        alnum_end(s, i) < s.len() ==> !is_alnum(s[alnum_end(s, i)]),
        0 <= i < s.len() && is_alnum(s[i]) ==> alnum_end(s, i) > i,
    decreases s.len() - i,
{
    if i < s.len() && is_alnum(s[i]) {
        lemma_alnum_end(s, i + 1);
    }
}

/// The runs of ASCII letters and digits in `s[i..]`, in order (the pieces of
/// `s` split at every other character, without the empty ones).
pub open spec fn alnum_runs(s: Seq<char>, i: int) -> Seq<Seq<char>>
    decreases s.len() - i,
{
    if i < 0 || i >= s.len() {
        Seq::empty()
    } else if !is_alnum(s[i]) {
        alnum_runs(s, i + 1)
    } else {
        proof {
            lemma_alnum_end(s, i);
        }
        seq![s.subrange(i, alnum_end(s, i))] + alnum_runs(s, alnum_end(s, i))
    }
}

/// A word worth naming a ROM after: three or more characters, a letter among
/// them, and not a common word.
pub open spec fn good_word(w: Seq<char>) -> bool {
    &&& w.len() >= 3
    &&& exists|k: int| 0 <= k < w.len() && is_alpha(#[trigger] w[k])
    &&& !low_value(w)
}

/// The good words of `ws`, in order.
pub open spec fn good_words(ws: Seq<Seq<char>>) -> Seq<Seq<char>>
    decreases ws.len(),
{
    if ws.len() == 0 {
        Seq::empty()
    } else {
        good_words(ws.drop_last()) + if good_word(ws.last()) {
            seq![ws.last()]
        } else {
            Seq::empty()
        }
    }
}

/// At most the first twelve of `ws`.
pub open spec fn first_twelve(ws: Seq<Seq<char>>) -> Seq<Seq<char>> {
    if ws.len() > 12 {
        ws.take(12)
    } else {
        ws
    }
}

/// The words a name may be built from: the first twelve good words of the
/// text, in title case.
pub open spec fn name_words(text: Seq<char>) -> Seq<Seq<char>> {
    first_twelve(good_words(alnum_runs(text, 0))).map_values(|w: Seq<char>| title(w))
}

/// Words joined with single spaces.
pub open spec fn join_words(ws: Seq<Seq<char>>) -> Seq<char>
    decreases ws.len(),
{
    if ws.len() == 0 {
        Seq::empty()
    } else if ws.len() == 1 {
        ws[0]
    } else {
        join_words(ws.drop_last()) + seq![' '] + ws.last()
    }
}

/// The joined windows of `w` words that start at positions `0..n`, keeping
/// those of at most `ROM_NAME_MAX_CHARS` characters.
pub open spec fn short_windows(words: Seq<Seq<char>>, w: nat, n: nat) -> Seq<Seq<char>>
    decreases n,
{
    if n == 0 {
        Seq::empty()
    } else {
        short_windows(words, w, (n - 1) as nat) + if join_words(words.subrange(n - 1, n - 1 + w)).len()
            <= ROM_NAME_MAX_CHARS {
            seq![join_words(words.subrange(n - 1, n - 1 + w))]
        } else {
            Seq::empty()
        }
    }
}

/// Number of windows of `w` words.
pub open spec fn window_count(words: Seq<Seq<char>>, w: nat) -> nat {
    if words.len() >= w {
        (words.len() - w + 1) as nat
    } else {
        0
    }
}

/// Candidate names from one piece of text: runs of three, then two, then one
/// consecutive name words.
pub open spec fn name_candidates(text: Seq<char>) -> Seq<Seq<char>> {
    let ws = name_words(text);
    short_windows(ws, 3, window_count(ws, 3)) + short_windows(ws, 2, window_count(ws, 2)) + short_windows(
        ws,
        1,
        window_count(ws, 1),
    )
}

/// Whether `c` is an ASCII letter or digit.
fn alnum_char(c: char) -> (b: bool)
    ensures
        b == is_alnum(c),
{
    let n = c as u32;
    (65 <= n && n <= 90) || (97 <= n && n <= 122) || (48 <= n && n <= 57)
}

/// Whether `w` is a good word.
fn is_good_word(w: &[char]) -> (good: bool)
    ensures
        good == good_word(w@),
{
    if w.len() < 3 {
        return false;
    }
    let mut has_alpha = false;
    let mut k: usize = 0;
    while k < w.len()
        invariant
            k <= w@.len(),
            has_alpha == (exists|j: int| 0 <= j < k && is_alpha(#[trigger] w@[j])),
        decreases w@.len() - k,
    {
        let n = w[k] as u32;
        if (65 <= n && n <= 90) || (97 <= n && n <= 122) {
            has_alpha = true;
        }
        k += 1;
    }
    has_alpha && !low_value_chars(w)
}

/// Joins the words `words[from..from + w]` with single spaces.
fn join_window(words: &Vec<Vec<char>>, from: usize, w: usize) -> (joined: Vec<char>)
    requires
        from + w <= words@.len(),
    ensures
        joined@ == join_words(words@.map_values(|v: Vec<char>| v@).subrange(from as int, from + w)),
{
    let ghost views = words@.map_values(|v: Vec<char>| v@);
    let total = words.len();
    let mut joined: Vec<char> = Vec::new();
    let mut k: usize = 0;
    assert(views.subrange(from as int, from as int) =~= Seq::<Seq<char>>::empty());
    while k < w
        invariant
            total == words@.len(),
            from + w <= words@.len(),
            views == words@.map_values(|v: Vec<char>| v@),
            k <= w,
            joined@ == join_words(views.subrange(from as int, from + k)),
        decreases w - k,
    {
        let ghost before = joined@;
        if k > 0 {
            joined.push(' ');
        }
        let word = &words[from + k];
        let mut j: usize = 0;
        while j < word.len()
            invariant
                j <= word@.len(),
                joined@ == before + (if k > 0 {
                    seq![' ']
                } else {
                    Seq::empty()
                }) + word@.take(j as int),
            decreases word@.len() - j,
        {
            joined.push(word[j]);
            j += 1;
            assert(joined@ =~= before + (if k > 0 {
                seq![' ']
            } else {
                Seq::empty()
            }) + word@.take(j as int));
        }
        assert(word@.take(word@.len() as int) =~= word@);
        let ghost next = views.subrange(from as int, from + k + 1);
        assert(next.drop_last() =~= views.subrange(from as int, from + k));
        assert(next.last() == word@);
        k += 1;
        assert(joined@ =~= join_words(views.subrange(from as int, from + k)));
    }
    joined
}

/// Candidate names from one piece of text.
fn candidates_of(chars: &Vec<char>) -> (candidates: Vec<Vec<char>>)
    ensures
        candidates@.map_values(|v: Vec<char>| v@) == name_candidates(chars@),
{
    let mut words: Vec<Vec<char>> = Vec::new();
    let ghost mut seen: Seq<Seq<char>> = Seq::empty();
    let mut i: usize = 0;
    while i < chars.len()
        invariant
            i <= chars@.len(),
            seen + alnum_runs(chars@, i as int) == alnum_runs(chars@, 0),
            words@.map_values(|v: Vec<char>| v@) == first_twelve(good_words(seen)).map_values(
                |w: Seq<char>| title(w),
            ),
        decreases chars@.len() - i,
    {
        if !alnum_char(chars[i]) {
            i += 1;
        } else {
            proof {
                lemma_alnum_end(chars@, i as int);
            }
            let mut e = i;
            while e < chars.len() && alnum_char(chars[e])
                invariant
                    i <= e <= chars@.len(),
                    alnum_end(chars@, e as int) == alnum_end(chars@, i as int),
                decreases chars@.len() - e,
            {
                e += 1;
            }
            let word = vstd::slice::slice_subrange(chars.as_slice(), i, e);
            let ghost w = word@;
            let good = is_good_word(word);
            let ghost old_words = words@;
            if good && words.len() < 12 {
                let t = title_chars(word);
                proof {
                    lemma_push_char_views(words@, t);
                }
                words.push(t);
            }
            proof {
                let g = good_words(seen);
                assert(seen.push(w).drop_last() =~= seen);
                assert(good_words(seen.push(w)) == g + if good_word(w) {
                    seq![w]
                } else {
                    Seq::<Seq<char>>::empty()
                });
                if good_word(w) {
                    if g.len() < 12 {
                        assert(first_twelve(g + seq![w]) =~= first_twelve(g).push(w));
                    } else {
                        assert(first_twelve(g + seq![w]) =~= first_twelve(g));
                    }
                } else {
                    assert(g + Seq::<Seq<char>>::empty() =~= g);
                }
                assert(first_twelve(g).map_values(|x: Seq<char>| title(x)).len() == first_twelve(g).len());
                assert(words@.map_values(|v: Vec<char>| v@) =~= first_twelve(good_words(seen.push(w))).map_values(
                    |x: Seq<char>| title(x),
                ));
                assert(seen.push(w) + alnum_runs(chars@, e as int) =~= seen + alnum_runs(chars@, i as int));
                seen = seen.push(w);
            }
            i = e;
        }
    }
    assert(seen + alnum_runs(chars@, i as int) =~= seen);
    let ghost ws = name_words(chars@);
    assert(words@.map_values(|v: Vec<char>| v@) == ws);
    let mut candidates: Vec<Vec<char>> = Vec::new();
    let mut w: usize = 3;
    let ghost mut done: Seq<Seq<char>> = Seq::empty();
    while w >= 1
        invariant
            1 <= w + 1 <= 4,
            ws == name_words(chars@),
            ws == words@.map_values(|v: Vec<char>| v@),
            candidates@.map_values(|v: Vec<char>| v@) == done,
            done == if w == 3 {
                Seq::<Seq<char>>::empty()
            } else if w == 2 {
                short_windows(ws, 3, window_count(ws, 3))
            } else if w == 1 {
                short_windows(ws, 3, window_count(ws, 3)) + short_windows(ws, 2, window_count(ws, 2))
            } else {
                name_candidates(chars@)
            },
        decreases w,
    {
        let count = if words.len() >= w {
            words.len() - w + 1
        } else {
            0
        };
        let ghost base = done;
        let mut s: usize = 0;
        while s < count
            invariant
                1 <= w <= 3,
                count == window_count(ws, w as nat),
                ws == words@.map_values(|v: Vec<char>| v@),
                s <= count,
                candidates@.map_values(|v: Vec<char>| v@) == base + short_windows(ws, w as nat, s as nat),
            decreases count - s,
        {
            let c = join_window(&words, s, w);
            if c.len() <= ROM_NAME_MAX_CHARS {
                proof {
                    lemma_push_char_views(candidates@, c);
                }
                candidates.push(c);
            }
            s += 1;
            assert(candidates@.map_values(|v: Vec<char>| v@) =~= base + short_windows(ws, w as nat, s as nat));
        }
        proof {
            done = base + short_windows(ws, w as nat, count as nat);
        }
        w -= 1;
    }
    candidates
}

/// Views of a pushed vector of character vectors.
proof fn lemma_push_char_views(v: Seq<Vec<char>>, c: Vec<char>)
    ensures
        v.push(c).map_values(|x: Vec<char>| x@) == v.map_values(|x: Vec<char>| x@).push(c@),
{
    assert(v.push(c).map_values(|x: Vec<char>| x@) =~= v.map_values(|x: Vec<char>| x@).push(c@));
}

/// Candidate names from one piece of text: runs of three, then two, then one
/// consecutive words (the first twelve worth naming after, in title case),
/// keeping those of at most thirty characters.
pub fn name_candidates_from_text(text: &str) -> (candidates: Vec<String>)
    ensures
        candidates@.map_values(|s: String| s@) == name_candidates(text@),
{
    let chars = chars_of(text);
    let found = candidates_of(&chars);
    let mut out: Vec<String> = Vec::new();
    let mut k: usize = 0;
    while k < found.len()
        invariant
            k <= found@.len(),
            out@.map_values(|s: String| s@) == found@.map_values(|v: Vec<char>| v@).take(k as int),
        decreases found@.len() - k,
    {
        let s = string_from_chars(found[k].as_slice());
        let ghost prev = out@;
        out.push(s);
        proof {
            assert(out@.map_values(|s: String| s@) =~= prev.map_values(|s: String| s@).push(found@[k as int]@));
            assert(found@.map_values(|v: Vec<char>| v@).take(k + 1) =~= found@.map_values(|v: Vec<char>| v@).take(
                k as int,
            ).push(found@[k as int]@));
        }
        k += 1;
        assert(out@.map_values(|s: String| s@) =~= found@.map_values(|v: Vec<char>| v@).take(k as int));
    }
    assert(found@.map_values(|v: Vec<char>| v@).take(found@.len() as int) =~= found@.map_values(
        |v: Vec<char>| v@,
    ));
    out
}

/// Every candidate name is at most `ROM_NAME_MAX_CHARS` characters long.
pub proof fn lemma_short_windows_len(words: Seq<Seq<char>>, w: nat, n: nat)
    ensures
        forall|k: int|
            0 <= k < short_windows(words, w, n).len() ==> (#[trigger] short_windows(words, w, n)[k]).len()
                <= ROM_NAME_MAX_CHARS,
    decreases n,
{
    if n > 0 {
        lemma_short_windows_len(words, w, (n - 1) as nat);
        let prev = short_windows(words, w, (n - 1) as nat);
        let all = short_windows(words, w, n);
        assert forall|k: int| 0 <= k < all.len() implies (#[trigger] all[k]).len() <= ROM_NAME_MAX_CHARS by {
            if k < prev.len() {
                assert(all[k] == prev[k]);
            }
        }
    }
}

pub proof fn lemma_candidates_len(text: Seq<char>)
    ensures
        forall|k: int|
            0 <= k < name_candidates(text).len() ==> (#[trigger] name_candidates(text)[k]).len()
                <= ROM_NAME_MAX_CHARS,
{
    let ws = name_words(text);
    lemma_short_windows_len(ws, 3, window_count(ws, 3));
    lemma_short_windows_len(ws, 2, window_count(ws, 2));
    lemma_short_windows_len(ws, 1, window_count(ws, 1));
    let a = short_windows(ws, 3, window_count(ws, 3));
    let b = short_windows(ws, 2, window_count(ws, 2));
    let c = short_windows(ws, 1, window_count(ws, 1));
    assert forall|k: int| 0 <= k < name_candidates(text).len() implies (#[trigger] name_candidates(
        text,
    )[k]).len() <= ROM_NAME_MAX_CHARS by {
        if k < a.len() {
            assert(name_candidates(text)[k] == a[k]);
        } else if k < a.len() + b.len() {
            assert(name_candidates(text)[k] == b[k - a.len()]);
        } else {
            assert(name_candidates(text)[k] == c[k - a.len() - b.len()]);
        }
    }
}

/// Number of words in `s`: its maximal runs of characters that are not white space.
pub open spec fn word_count(s: Seq<char>) -> nat
    decreases s.len(),
{
    if s.len() == 0 {
        0
    } else {
        word_count(s.drop_last()) + if !is_white(s.last()) && (s.len() == 1 || is_white(s[s.len() - 2])) {
            1nat
        } else {
            0nat
        }
    }
}

/// Number of letters in `s` (the candidates are ASCII, so these are the ASCII letters).
pub open spec fn alpha_count(s: Seq<char>) -> nat
    decreases s.len(),
{
    if s.len() == 0 {
        0
    } else {
        alpha_count(s.drop_last()) + if is_alpha(s.last()) {
            1nat
        } else {
            0nat
        }
    }
}

/// Bonus for text near the start of a ROM of `len` bytes: 100 at offset 0,
/// falling in proportion to the offset.
pub open spec fn position_bonus(offset: int, len: int) -> int {
    if len == 0 {
        0
    } else {
        100 - ((if offset < len {
            offset
        } else {
            len
        }) * 100) / len
    }
}

/// Score of a candidate found at `offset` in a ROM of `len` bytes: 200 per
/// word, one per letter, and the position bonus.
pub open spec fn name_score(candidate: Seq<char>, offset: int, len: int) -> int {
    word_count(candidate) * 200 + alpha_count(candidate) + position_bonus(offset, len)
}

/// Text nearer the start of a ROM scores higher: for the same candidate, a
/// score never rises with the offset, and text at offset 0 scores exactly
/// 100 more than text at or past the end.
pub proof fn lemma_name_score_position(c: Seq<char>, o1: int, o2: int, len: int)
    requires
        len > 0,
        0 <= o1 <= o2,
    ensures
        name_score(c, o1, len) >= name_score(c, o2, len),
        name_score(c, 0, len) == name_score(c, len, len) + 100,
        name_score(c, o2, len) >= name_score(c, len, len),
        name_score(c, o1, len) <= name_score(c, 0, len),
{
    let m1 = if o1 < len {
        o1
    } else {
        len
    };
    let m2 = if o2 < len {
        o2
    } else {
        len
    };
    assert((m1 * 100) / len <= (m2 * 100) / len) by (nonlinear_arith)
        requires
            0 <= m1 <= m2,
            len > 0,
    ;
    assert((m2 * 100) / len <= (len * 100) / len) by (nonlinear_arith)
        requires
            0 <= m2 <= len,
            len > 0,
    ;
    assert((len * 100) / len == 100) by (nonlinear_arith)
        requires
            len > 0,
    ;
    assert((0int * 100) / len == 0) by (nonlinear_arith)
        requires
            len > 0,
    ;
    assert((0int * 100) / len <= (m1 * 100) / len) by (nonlinear_arith)
        requires
            0 <= m1,
            len > 0,
    ;
}

/// Two candidates of as many words: one at offset 0 of a ROM of `len` bytes
/// ranks before one at offset `o` whenever it lacks fewer letters than the
/// position bonus it gains, `o * 100 / len` points (for `o <= len`).
pub proof fn lemma_earlier_name_ranks_first(a: Seq<char>, b: Seq<char>, o: int, len: int)
    requires
        len > 0,
        0 < o <= len,
        word_count(a) == word_count(b),
        alpha_count(b) < alpha_count(a) + (o * 100) / len,
    ensures
        ranks_before((name_score(a, 0, len), 0, a), (name_score(b, o, len), o, b)),
{
    assert((0int * 100) / len == 0) by (nonlinear_arith)
        requires
            len > 0,
    ;
}

/// The scored candidates of one run of text: (score, offset, candidate).
pub open spec fn scored_run(offset: int, text: Seq<char>, len: int) -> Seq<(int, int, Seq<char>)> {
    name_candidates(text).map_values(|c: Seq<char>| (name_score(c, offset, len), offset, c))
}

/// The scored candidates of all runs, in the order found.
pub open spec fn scored_names(runs: Seq<(int, Seq<char>)>, len: int) -> Seq<(int, int, Seq<char>)>
    decreases runs.len(),
{
    if runs.len() == 0 {
        Seq::empty()
    } else {
        scored_names(runs.drop_last(), len) + scored_run(runs.last().0, runs.last().1, len)
    }
}

/// Whether `a` ranks strictly before `b`: higher score first, then lower
/// offset, then shorter candidate.
pub open spec fn ranks_before(a: (int, int, Seq<char>), b: (int, int, Seq<char>)) -> bool {
    a.0 > b.0 || (a.0 == b.0 && (a.1 < b.1 || (a.1 == b.1 && a.2.len() < b.2.len())))
}

/// `x` inserted into the ranked `s` after every entry it does not rank before.
pub open spec fn insert_ranked(s: Seq<(int, int, Seq<char>)>, x: (int, int, Seq<char>)) -> Seq<
    (int, int, Seq<char>),
>
    decreases s.len(),
{
    if s.len() > 0 && ranks_before(x, s.last()) {
        insert_ranked(s.drop_last(), x).push(s.last())
    } else {
        s.push(x)
    }
}

/// `s` in rank order, entries of equal rank keeping their order (a stable sort).
pub open spec fn rank_sort(s: Seq<(int, int, Seq<char>)>) -> Seq<(int, int, Seq<char>)>
    decreases s.len(),
{
    if s.len() == 0 {
        Seq::empty()
    } else {
        insert_ranked(rank_sort(s.drop_last()), s.last())
    }
}

/// Two names that differ at most in ASCII case.
pub open spec fn same_name(a: Seq<char>, b: Seq<char>) -> bool {
    ascii_lower_seq(a) == ascii_lower_seq(b)
}

/// Whether `names` holds a name that differs from `c` at most in ASCII case.
pub open spec fn has_same_name(names: Seq<Seq<char>>, c: Seq<char>) -> bool {
    exists|k: int| 0 <= k < names.len() && same_name(#[trigger] names[k], c)
}

/// The names of `cs`, in order, leaving out each that repeats an earlier one
/// up to ASCII case, and stopping at `ROM_NAME_SUGGESTION_LIMIT`.
pub open spec fn distinct_names(cs: Seq<Seq<char>>) -> Seq<Seq<char>>
    decreases cs.len(),
{
    if cs.len() == 0 {
        Seq::empty()
    } else {
        let acc = distinct_names(cs.drop_last());
        if acc.len() < ROM_NAME_SUGGESTION_LIMIT && !has_same_name(acc, cs.last()) {
            acc.push(cs.last())
        } else {
            acc
        }
    }
}

/// The names suggested for a ROM image.
pub open spec fn suggested_names(data: Seq<u8>) -> Seq<Seq<char>> {
    distinct_names(
        rank_sort(scored_names(printable_runs(data, 0), data.len() as int)).map_values(
            |t: (int, int, Seq<char>)| t.2,
        ),
    )
}

pub proof fn lemma_counts_bounded(s: Seq<char>)
    ensures
        word_count(s) <= s.len(),
        alpha_count(s) <= s.len(),
    decreases s.len(),
{
    if s.len() > 0 {
        lemma_counts_bounded(s.drop_last());
    }
}

/// A scored entry as plain values.
pub open spec fn entry_view(t: (usize, usize, Vec<char>)) -> (int, int, Seq<char>) {
    (t.0 as int, t.1 as int, t.2@)
}

pub open spec fn entries_view(s: Seq<(usize, usize, Vec<char>)>) -> Seq<(int, int, Seq<char>)> {
    s.map_values(|t: (usize, usize, Vec<char>)| entry_view(t))
}

/// Number of words in `s`.
fn count_words(s: &[char]) -> (n: usize)
    ensures
        n == word_count(s@),
{
    let mut n: usize = 0;
    let mut i: usize = 0;
    while i < s.len()
        invariant
            i <= s@.len(),
            n == word_count(s@.take(i as int)),
            n <= i,
        decreases s@.len() - i,
    {
        proof {
            assert(s@.take(i + 1).drop_last() =~= s@.take(i as int));
        }
        if !white(s[i]) && (i == 0 || white(s[i - 1])) {
            n += 1;
        }
        i += 1;
    }
    assert(s@.take(i as int) =~= s@);
    n
}

/// Number of ASCII letters in `s`.
fn count_letters(s: &[char]) -> (n: usize)
    ensures
        n == alpha_count(s@),
{
    let mut n: usize = 0;
    let mut i: usize = 0;
    while i < s.len()
        invariant
            i <= s@.len(),
            n == alpha_count(s@.take(i as int)),
            n <= i,
        decreases s@.len() - i,
    {
        proof {
            assert(s@.take(i + 1).drop_last() =~= s@.take(i as int));
        }
        let m = s[i] as u32;
        if (65 <= m && m <= 90) || (97 <= m && m <= 122) {
            n += 1;
        }
        i += 1;
    }
    assert(s@.take(i as int) =~= s@);
    n
}

/// The score of `candidate` found at `offset` in a ROM of `len` bytes.
fn score_of(candidate: &[char], offset: usize, len: usize) -> (score: usize)
    requires
        candidate@.len() <= ROM_NAME_MAX_CHARS,
        len * 100 <= usize::MAX,
    ensures
        score == name_score(candidate@, offset as int, len as int),
{
    proof {
        lemma_counts_bounded(candidate@);
    }
    let words = count_words(candidate);
    let letters = count_letters(candidate);
    let bonus: usize = if len == 0 {
        0
    } else {
        let m = if offset < len {
            offset
        } else {
            len
        };
        assert(m * 100 <= len * 100) by (nonlinear_arith)
            requires
                m <= len,
        ;
        assert((m * 100) / (len as int) <= 100) by (nonlinear_arith)
            requires
                m <= len,
                len > 0,
        ;
        100 - (m * 100) / len
    };
    words * 200 + letters + bonus
}

/// Whether `a` ranks strictly before `b`.
fn ranks_first(a: &(usize, usize, Vec<char>), b: &(usize, usize, Vec<char>)) -> (r: bool)
    ensures
        r == ranks_before(entry_view(*a), entry_view(*b)),
{
    a.0 > b.0 || (a.0 == b.0 && (a.1 < b.1 || (a.1 == b.1 && a.2.len() < b.2.len())))
}

/// Inserts `x` into the ranked entries, after every entry it does not rank before.
fn insert_by_rank(sorted: &mut Vec<(usize, usize, Vec<char>)>, x: (usize, usize, Vec<char>))
    ensures
        entries_view(final(sorted)@) == insert_ranked(entries_view(old(sorted)@), entry_view(x)),
{
    let ghost sv = entries_view(sorted@);
    let ghost xv = entry_view(x);
    let mut p = sorted.len();
    assert(sv.take(p as int) =~= sv);
    assert(sv.skip(p as int) =~= Seq::<(int, int, Seq<char>)>::empty());
    while p > 0 && ranks_first(&x, &sorted[p - 1])
        invariant
            sv == entries_view(sorted@),
            xv == entry_view(x),
            p <= sorted@.len(),
            insert_ranked(sv, xv) == insert_ranked(sv.take(p as int), xv) + sv.skip(p as int),
        decreases p,
    {
        proof {
            let t = sv.take(p as int);
            assert(t.drop_last() =~= sv.take(p - 1));
            assert(t.last() == sv[p - 1]);
            assert(insert_ranked(t, xv) == insert_ranked(sv.take(p - 1), xv).push(sv[p - 1]));
            assert(sv.skip(p - 1) =~= seq![sv[p - 1]] + sv.skip(p as int));
            assert(insert_ranked(sv.take(p - 1), xv).push(sv[p - 1]) + sv.skip(p as int) =~= insert_ranked(
                sv.take(p - 1),
                xv,
            ) + sv.skip(p - 1));
        }
        p -= 1;
    }
    proof {
        let t = sv.take(p as int);
        if p > 0 {
            assert(t.last() == sv[p - 1]);
        }
        assert(insert_ranked(t, xv) == t.push(xv));
        assert(t.push(xv) + sv.skip(p as int) =~= sv.insert(p as int, xv));
    }
    sorted.insert(p, x);
    assert(entries_view(sorted@) =~= sv.insert(p as int, xv));
}

/// A copy of `chars`.
fn copy_chars(chars: &[char]) -> (v: Vec<char>)
    ensures
        v@ == chars@,
{
    let mut v: Vec<char> = Vec::new();
    let mut i: usize = 0;
    while i < chars.len()
        invariant
            i <= chars@.len(),
            v@ == chars@.take(i as int),
        decreases chars@.len() - i,
    {
        v.push(chars[i]);
        i += 1;
        assert(v@ =~= chars@.take(i as int));
    }
    assert(chars@.take(i as int) =~= chars@);
    v
}

/// Whether `a` and `b` differ at most in ASCII case.
fn same_name_chars(a: &[char], b: &[char]) -> (same: bool)
    ensures
        same == same_name(a@, b@),
{
    if a.len() != b.len() {
        assert(ascii_lower_seq(a@).len() != ascii_lower_seq(b@).len());
        return false;
    }
    let mut i: usize = 0;
    while i < a.len()
        invariant
            i <= a@.len(),
            a@.len() == b@.len(),
            forall|k: int| 0 <= k < i ==> ascii_lower(#[trigger] a@[k]) == ascii_lower(b@[k]),
        decreases a@.len() - i,
    {
        if to_lower(a[i]) != to_lower(b[i]) {
            assert(ascii_lower_seq(a@)[i as int] != ascii_lower_seq(b@)[i as int]);
            return false;
        }
        i += 1;
    }
    assert(ascii_lower_seq(a@) =~= ascii_lower_seq(b@));
    true
}

/// Whether `names` holds one that differs from `c` at most in ASCII case.
fn holds_same_name(names: &Vec<Vec<char>>, c: &[char]) -> (found: bool)
    ensures
        found == has_same_name(names@.map_values(|v: Vec<char>| v@), c@),
{
    let ghost views = names@.map_values(|v: Vec<char>| v@);
    let mut k: usize = 0;
    while k < names.len()
        invariant
            views == names@.map_values(|v: Vec<char>| v@),
            k <= names@.len(),
            forall|j: int| 0 <= j < k ==> !same_name(#[trigger] views[j], c@),
        decreases names@.len() - k,
    {
        if same_name_chars(names[k].as_slice(), c) {
            assert(same_name(views[k as int], c@));
            return true;
        }
        k += 1;
    }
    false
}

/// Name suggestions for a ROM image: the candidate names found in its
/// printable text, best first, without repeats up to ASCII case, at most
/// `ROM_NAME_SUGGESTION_LIMIT` of them.
pub fn suggest_rom_names(data: &[u8]) -> (names: Vec<String>)
    requires
        data@.len() * 100 <= usize::MAX,
    ensures
        names@.map_values(|s: String| s@) == suggested_names(data@),
{
    let len = data.len();
    let runs = printable_strings(data);
    let ghost rs = printable_runs(data@, 0);
    let mut sorted: Vec<(usize, usize, Vec<char>)> = Vec::new();
    let mut r: usize = 0;
    assert(rs.take(0) =~= Seq::<(int, Seq<char>)>::empty());
    while r < runs.len()
        invariant
            len == data@.len(),
            len * 100 <= usize::MAX,
            rs == printable_runs(data@, 0),
            runs@.len() == rs.len(),
            forall|k: int| 0 <= k < runs@.len() ==> (#[trigger] runs@[k]).0 == rs[k].0 && runs@[k].1@ == rs[k].1,
            r <= runs@.len(),
            entries_view(sorted@) == rank_sort(scored_names(rs.take(r as int), len as int)),
        decreases runs@.len() - r,
    {
        let offset = runs[r].0;
        let chars = chars_of(runs[r].1.as_str());
        let cands = candidates_of(&chars);
        let ghost text = rs[r as int].1;
        let ghost before = scored_names(rs.take(r as int), len as int);
        let ghost run = scored_run(offset as int, text, len as int);
        proof {
            lemma_candidates_len(text);
        }
        let mut j: usize = 0;
        while j < cands.len()
            invariant
                len * 100 <= usize::MAX,
                cands@.map_values(|v: Vec<char>| v@) == name_candidates(text),
                forall|k: int|
                    0 <= k < name_candidates(text).len() ==> (#[trigger] name_candidates(text)[k]).len()
                        <= ROM_NAME_MAX_CHARS,
                run == scored_run(offset as int, text, len as int),
                j <= cands@.len(),
                entries_view(sorted@) == rank_sort(before + run.take(j as int)),
            decreases cands@.len() - j,
        {
            let c = cands[j].as_slice();
            assert(c@ == name_candidates(text)[j as int]);
            let score = score_of(c, offset, len);
            let entry = (score, offset, copy_chars(c));
            assert(entry_view(entry) == run[j as int]);
            assert((before + run.take(j + 1)).drop_last() =~= before + run.take(j as int));
            insert_by_rank(&mut sorted, entry);
            j += 1;
        }
        proof {
            assert(run.take(j as int) =~= run);
            assert(rs.take(r + 1).drop_last() =~= rs.take(r as int));
        }
        r += 1;
    }
    assert(rs.take(r as int) =~= rs);
    let ghost ranked = entries_view(sorted@).map_values(|t: (int, int, Seq<char>)| t.2);
    let mut picked: Vec<Vec<char>> = Vec::new();
    let mut i: usize = 0;
    while i < sorted.len()
        invariant
            ranked == entries_view(sorted@).map_values(|t: (int, int, Seq<char>)| t.2),
            i <= sorted@.len(),
            picked@.map_values(|v: Vec<char>| v@) == distinct_names(ranked.take(i as int)),
        decreases sorted@.len() - i,
    {
        let c = sorted[i].2.as_slice();
        proof {
            assert(ranked.take(i + 1).drop_last() =~= ranked.take(i as int));
            assert(ranked.take(i + 1).last() == c@);
        }
        if picked.len() < ROM_NAME_SUGGESTION_LIMIT && !holds_same_name(&picked, c) {
            let copy = copy_chars(c);
            proof {
                lemma_push_char_views(picked@, copy);
            }
            picked.push(copy);
        }
        i += 1;
    }
    assert(ranked.take(i as int) =~= ranked);
    let mut names: Vec<String> = Vec::new();
    let mut k: usize = 0;
    while k < picked.len()
        invariant
            k <= picked@.len(),
            names@.map_values(|s: String| s@) == picked@.map_values(|v: Vec<char>| v@).take(k as int),
        decreases picked@.len() - k,
    {
        let s = string_from_chars(picked[k].as_slice());
        let ghost prev = names@;
        names.push(s);
        proof {
            assert(names@.map_values(|s: String| s@) =~= prev.map_values(|s: String| s@).push(picked@[k as int]@));
            assert(picked@.map_values(|v: Vec<char>| v@).take(k + 1) =~= picked@.map_values(|v: Vec<char>| v@).take(
                k as int,
            ).push(picked@[k as int]@));
        }
        k += 1;
    }
    assert(picked@.map_values(|v: Vec<char>| v@).take(k as int) =~= picked@.map_values(|v: Vec<char>| v@));
    names
}

} // verus!
