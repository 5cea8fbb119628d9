//! What the settings menus and the pickers offer: bank sizes, chip sizes,
//! the chips to pick from, and the filters of the platform and IC pickers.
use vstd::prelude::*;
use crate::catalog::{chip_table, chips, layout_table, layouts, Chip, RomLayout};
use crate::choice::{chip_eligible, chip_is_eligible};
use crate::labels::{layout_size_label, layout_size_text, trim_chars, trimmed};
use crate::project::{lowercase, to_lowercase};
use crate::text::{chars_of, string_from_chars};

verus! {

/// `values` rises strictly.
pub open spec fn strictly_rising(values: Seq<usize>) -> bool {
    forall|i: int, j: int| 0 <= i < j < values.len() ==> values[i] < values[j]
}

/// Inserts `v` into the strictly rising `sorted`, unless it is there already.
fn insert_distinct(sorted: &mut Vec<usize>, v: usize)
    requires
        strictly_rising(old(sorted)@),
    ensures
        strictly_rising(final(sorted)@),
        forall|x: usize| final(sorted)@.contains(x) <==> (old(sorted)@.contains(x) || x == v),
{
    let ghost s = sorted@;
    let mut p: usize = 0;
    while p < sorted.len() && sorted[p] < v
        invariant
            sorted@ == s,
            p <= s.len(),
            forall|k: int| 0 <= k < p ==> s[k] < v,
        decreases s.len() - p,
    {
        p += 1;
    }
    if p < sorted.len() && sorted[p] == v {
        assert(s[p as int] == v);
        return;
    }
    sorted.insert(p, v);
    assert(sorted@ == s.insert(p as int, v));
    assert forall|i: int, j: int| 0 <= i < j < sorted@.len() implies sorted@[i] < sorted@[j] by {
        if j < p {
        } else if j == p {
        } else if i < p {
            assert(s[i] < v);
            assert(v < s[p as int] || p == s.len());
        } else if i == p {
            assert(v < s[p as int]);
            assert(s[p as int] <= s[j - 1]);
        } else {
        }
    }
    assert forall|x: usize| sorted@.contains(x) implies (s.contains(x) || x == v) by {
        let k = choose|k: int| 0 <= k < sorted@.len() && sorted@[k] == x;
        if k < p {
            assert(s[k] == x);
        } else if k > p {
            assert(s[k - 1] == x);
        }
    }
    assert forall|x: usize| s.contains(x) implies sorted@.contains(x) by {
        let k = choose|k: int| 0 <= k < s.len() && s[k] == x;
        if k < p {
            assert(sorted@[k] == x);
        } else {
            assert(sorted@[k + 1] == x);
        }
    }
    assert(sorted@[p as int] == v);
    assert(sorted@.contains(v));
}

/// The distinct bank sizes of the ROM layouts, smallest first.
pub fn layout_sizes() -> (sizes: Vec<usize>)
    ensures
        strictly_rising(sizes@),
        forall|v: usize|
            sizes@.contains(v) <==> exists|i: int| 0 <= i < layout_table().len() && #[trigger] layout_table()[i].unit_size == v,
{
    let table = layouts();
    let mut sizes: Vec<usize> = Vec::new();
    let mut i: usize = 0;
    while i < table.len()
        invariant
            table@ == layout_table(),
            i <= table@.len(),
            strictly_rising(sizes@),
            forall|v: usize| sizes@.contains(v) <==> exists|k: int| 0 <= k < i && #[trigger] table@[k].unit_size == v,
        decreases table@.len() - i,
    {
        insert_distinct(&mut sizes, table[i].unit_size);
        proof {
            assert forall|v: usize| sizes@.contains(v) <==> exists|k: int| 0 <= k < i + 1 && #[trigger] table@[k].unit_size == v by {
                if exists|k: int| 0 <= k < i + 1 && #[trigger] table@[k].unit_size == v {
                    let k = choose|k: int| 0 <= k < i + 1 && #[trigger] table@[k].unit_size == v;
                    if k < i {
                        assert(exists|m: int| 0 <= m < i && #[trigger] table@[m].unit_size == v);
                    }
                }
            }
        }
        i += 1;
    }
    sizes
}

/// The first layout whose banks are `size` bytes.
pub fn first_layout_of_size(size: usize) -> (found: Option<usize>)
    ensures
        match found {
            Some(i) => i < layout_table().len() && layout_table()[i as int].unit_size == size && forall|k: int|
                0 <= k < i ==> #[trigger] layout_table()[k].unit_size != size,
            None => forall|k: int| 0 <= k < layout_table().len() ==> #[trigger] layout_table()[k].unit_size != size,
        },
{
    let table = layouts();
    let mut i: usize = 0;
    while i < table.len()
        invariant
            table@ == layout_table(),
            i <= table@.len(),
            forall|k: int| 0 <= k < i ==> #[trigger] layout_table()[k].unit_size != size,
        decreases table@.len() - i,
    {
        if table[i].unit_size == size {
            return Some(i);
        }
        i += 1;
    }
    None
}

/// The distinct capacities of the chips eligible for banks of `layout_size`
/// bytes, smallest first.
pub fn eligible_chip_sizes(layout_size: usize, multi_rom_image: bool, allow_larger_chip: bool) -> (sizes: Vec<usize>)
    ensures
        strictly_rising(sizes@),
        forall|v: usize|
            sizes@.contains(v) <==> exists|i: int|
                0 <= i < chip_table().len() && chip_eligible(
                    #[trigger] chip_table()[i],
                    layout_size as int,
                    multi_rom_image,
                    allow_larger_chip,
                ) && chip_table()[i].capacity == v,
{
    let table = chips();
    let mut sizes: Vec<usize> = Vec::new();
    let mut i: usize = 0;
    while i < table.len()
        invariant
            table@ == chip_table(),
            i <= table@.len(),
            strictly_rising(sizes@),
            forall|v: usize|
                sizes@.contains(v) <==> exists|k: int|
                    0 <= k < i && chip_eligible(#[trigger] table@[k], layout_size as int, multi_rom_image, allow_larger_chip)
                        && table@[k].capacity == v,
        decreases table@.len() - i,
    {
        let ghost before = sizes@;
        if chip_is_eligible(table[i], layout_size, multi_rom_image, allow_larger_chip) {
            insert_distinct(&mut sizes, table[i].capacity);
        }
        proof {
            assert forall|v: usize| sizes@.contains(v) <==> exists|k: int|
                0 <= k < i + 1 && chip_eligible(#[trigger] table@[k], layout_size as int, multi_rom_image, allow_larger_chip)
                    && table@[k].capacity == v by {
                if exists|k: int|
                    0 <= k < i + 1 && chip_eligible(#[trigger] table@[k], layout_size as int, multi_rom_image, allow_larger_chip)
                        && table@[k].capacity == v {
                    let k = choose|k: int|
                        0 <= k < i + 1 && chip_eligible(#[trigger] table@[k], layout_size as int, multi_rom_image, allow_larger_chip)
                            && table@[k].capacity == v;
                    if k < i {
                        assert(exists|m: int|
                            0 <= m < i && chip_eligible(#[trigger] table@[m], layout_size as int, multi_rom_image, allow_larger_chip)
                                && table@[m].capacity == v);
                    }
                }
            }
        }
        i += 1;
    }
    sizes
}

/// The first eligible chip of capacity `size`.
pub fn first_eligible_chip_of_size(size: usize, layout_size: usize, multi_rom_image: bool, allow_larger_chip: bool) -> (found: Option<usize>)
    ensures
        match found {
            Some(i) => {
                &&& i < chip_table().len()
                &&& chip_table()[i as int].capacity == size
                &&& chip_eligible(chip_table()[i as int], layout_size as int, multi_rom_image, allow_larger_chip)
                &&& forall|k: int|
                    0 <= k < i ==> !(#[trigger] chip_table()[k].capacity == size && chip_eligible(
                        chip_table()[k],
                        layout_size as int,
                        multi_rom_image,
                        allow_larger_chip,
                    ))
            },
            None => forall|k: int|
                0 <= k < chip_table().len() ==> !(#[trigger] chip_table()[k].capacity == size && chip_eligible(
                    chip_table()[k],
                    layout_size as int,
                    multi_rom_image,
                    allow_larger_chip,
                )),
        },
{
    let table = chips();
    let mut i: usize = 0;
    while i < table.len()
        invariant
            table@ == chip_table(),
            i <= table@.len(),
            forall|k: int|
                0 <= k < i ==> !(#[trigger] chip_table()[k].capacity == size && chip_eligible(
                    chip_table()[k],
                    layout_size as int,
                    multi_rom_image,
                    allow_larger_chip,
                )),
        decreases table@.len() - i,
    {
        if table[i].capacity == size && chip_is_eligible(table[i], layout_size, multi_rom_image, allow_larger_chip) {
            return Some(i);
        }
        i += 1;
    }
    None
}

/// `x` inserted into `s` after every index whose chip is not larger.
pub open spec fn insert_by_capacity(s: Seq<usize>, x: usize) -> Seq<usize>
    decreases s.len(),
{
    if s.len() > 0 && chip_table()[x as int].capacity < chip_table()[s.last() as int].capacity {
        insert_by_capacity(s.drop_last(), x).push(s.last())
    } else {
        s.push(x)
    }
}

/// The chip indices of `s` ordered by capacity, keeping catalog order among
/// chips of the same capacity (a stable sort).
pub open spec fn capacity_sort(s: Seq<usize>) -> Seq<usize>
    decreases s.len(),
{
    if s.len() == 0 {
        Seq::empty()
    } else {
        insert_by_capacity(capacity_sort(s.drop_last()), s.last())
    }
}

/// The indices of the first `n` catalog chips eligible for banks of `layout_size` bytes.
pub open spec fn eligible_chips(n: int, layout_size: int, multi_rom_image: bool, allow_larger_chip: bool) -> Seq<usize>
    decreases n,
{
    if n <= 0 {
        Seq::empty()
    } else {
        eligible_chips(n - 1, layout_size, multi_rom_image, allow_larger_chip) + if chip_eligible(
            chip_table()[n - 1],
            layout_size,
            multi_rom_image,
            allow_larger_chip,
        ) {
            seq![(n - 1) as usize]
        } else {
            Seq::<usize>::empty()
        }
    }
}

/// Inserts chip index `x` after every index whose chip is not larger.
fn insert_chip_by_capacity(sorted: &mut Vec<usize>, x: usize)
    requires
        x < chip_table().len(),
        forall|k: int| 0 <= k < old(sorted)@.len() ==> #[trigger] old(sorted)@[k] < chip_table().len(),
    ensures
        final(sorted)@ == insert_by_capacity(old(sorted)@, x),
        forall|k: int| 0 <= k < final(sorted)@.len() ==> #[trigger] final(sorted)@[k] < chip_table().len(),
{
    let table = chips();
    let ghost s = sorted@;
    let mut p = sorted.len();
    assert(s.take(p as int) =~= s);
    assert(s.skip(p as int) =~= Seq::<usize>::empty());
    while p > 0 && table[x].capacity < table[sorted[p - 1]].capacity
        invariant
            table@ == chip_table(),
            sorted@ == s,
            x < chip_table().len(),
            forall|k: int| 0 <= k < s.len() ==> #[trigger] s[k] < chip_table().len(),
            p <= s.len(),
            insert_by_capacity(s, x) == insert_by_capacity(s.take(p as int), x) + s.skip(p as int),
        decreases p,
    {
        proof {
            let t = s.take(p as int);
            assert(t.drop_last() =~= s.take(p - 1));
            assert(t.last() == s[p - 1]);
            assert(s.skip(p - 1) =~= seq![s[p - 1]] + s.skip(p as int));
            assert(insert_by_capacity(s.take(p - 1), x).push(s[p - 1]) + s.skip(p as int) =~= insert_by_capacity(
                s.take(p - 1),
                x,
            ) + s.skip(p - 1));
        }
        p -= 1;
    }
    proof {
        let t = s.take(p as int);
        if p > 0 {
            assert(t.last() == s[p - 1]);
        }
        assert(insert_by_capacity(t, x) == t.push(x));
        assert(t.push(x) + s.skip(p as int) =~= s.insert(p as int, x));
    }
    sorted.insert(p, x);
}

/// The chips the IC picker offers for banks of `layout_size` bytes: the
/// eligible ones, smallest first, in catalog order among equal capacities.
pub fn ic_choices(layout_size: usize, multi_rom_image: bool, allow_larger_chip: bool) -> (choices: Vec<usize>)
    ensures
        choices@ == capacity_sort(eligible_chips(chip_table().len() as int, layout_size as int, multi_rom_image, allow_larger_chip)),
{
    let table = chips();
    let mut sorted: Vec<usize> = Vec::new();
    let mut i: usize = 0;
    while i < table.len()
        invariant
            table@ == chip_table(),
            i <= table@.len(),
            sorted@ == capacity_sort(eligible_chips(i as int, layout_size as int, multi_rom_image, allow_larger_chip)),
            forall|k: int| 0 <= k < sorted@.len() ==> #[trigger] sorted@[k] < chip_table().len(),
        decreases table@.len() - i,
    {
        let ghost before = eligible_chips(i as int, layout_size as int, multi_rom_image, allow_larger_chip);
        if chip_is_eligible(table[i], layout_size, multi_rom_image, allow_larger_chip) {
            insert_chip_by_capacity(&mut sorted, i);
            assert(eligible_chips(i + 1, layout_size as int, multi_rom_image, allow_larger_chip) == before.push(i));
            assert(before.push(i).drop_last() =~= before);
        } else {
            assert(eligible_chips(i + 1, layout_size as int, multi_rom_image, allow_larger_chip) =~= before);
        }
        i += 1;
    }
    sorted
}

/// `needle` occurs in `hay`.
pub open spec fn contains_text(hay: Seq<char>, needle: Seq<char>) -> bool {
    exists|i: int| 0 <= i <= hay.len() - needle.len() && #[trigger] hay.subrange(i, i + needle.len()) == needle
}

/// Whether `needle` occurs in `hay`.
fn has_text(hay: &[char], needle: &[char]) -> (found: bool)
    ensures
        found == contains_text(hay@, needle@),
{
    let hay_len = hay.len();
    if needle.len() > hay_len {
        return false;
    }
    let last = hay_len - needle.len();
    let mut i: usize = 0;
    while i <= last
        invariant
            hay_len == hay@.len(),
            last == hay@.len() - needle@.len(),
            i <= last,
            forall|k: int| 0 <= k < i ==> #[trigger] hay@.subrange(k, k + needle@.len()) != needle@,
        decreases last - i,
    {
        let mut j: usize = 0;
        while j < needle.len() && hay[i + j] == needle[j]
            invariant
                hay_len == hay@.len(),
                i <= last,
                last == hay@.len() - needle@.len(),
                j <= needle@.len(),
                forall|m: int| 0 <= m < j ==> hay@[i + m] == needle@[m],
            decreases needle@.len() - j,
        {
            j += 1;
        }
        if j == needle.len() {
            assert(hay@.subrange(i as int, i + needle@.len()) =~= needle@);
            return true;
        }
        assert(hay@.subrange(i as int, i + needle@.len())[j as int] != needle@[j as int]);
        if i == last {
            assert forall|k: int| 0 <= k <= hay@.len() - needle@.len() implies #[trigger] hay@.subrange(
                k,
                k + needle@.len(),
            ) != needle@ by {
                if k < i {
                } else {
                    assert(k == i);
                }
            }
            return false;
        }
        i += 1;
    }
    false
}

/// The text a picker filter searches for: the filter without surrounding
/// blanks, in lower case.
fn filter_needle(filter: &str) -> (needle: Vec<char>)
    ensures
        needle@ == lowercase(trimmed(filter@)),
{
    let t = trim_chars(filter);
    let s = string_from_chars(t.as_slice());
    let lower = to_lowercase(s.as_str());
    chars_of(lower.as_str())
}

/// A layout the platform picker lists: one named after a platform, not a
/// plain ROM size (whose id starts with "rom-").
pub open spec fn is_platform(layout: RomLayout) -> bool {
    !(layout.id@.len() >= 4 && layout.id@.take(4) == "rom-"@)
}

/// Whether the platform picker lists `layout`.
pub fn platform_listed(layout: RomLayout) -> (listed: bool)
    ensures
        listed == is_platform(layout),
{
    let id = chars_of(layout.id);
    proof {
        reveal_strlit("rom-");
    }
    if id.len() >= 4 && id[0] == 'r' && id[1] == 'o' && id[2] == 'm' && id[3] == '-' {
        assert(id@.take(4) =~= "rom-"@);
        false
    } else {
        assert(id@.len() >= 4 ==> id@.take(4)[0] == id@[0] && id@.take(4)[1] == id@[1] && id@.take(4)[2] == id@[2]
            && id@.take(4)[3] == id@[3]);
        true
    }
}

/// Whether the platform picker shows `layout` for the filter text `filter`:
/// always for an empty filter, else when the lower-case name followed by a
/// space and the bank size label contains it.
pub fn platform_matches(layout: RomLayout, filter: &str) -> (shown: bool)
    ensures
        shown == (lowercase(trimmed(filter@)).len() == 0 || contains_text(
            lowercase(layout.name@) + " "@ + layout_size_text(layout.unit_size as nat),
            lowercase(trimmed(filter@)),
        )),
{
    let needle = filter_needle(filter);
    if needle.len() == 0 {
        return true;
    }
    let mut hay_text = to_lowercase(layout.name);
    hay_text.append(" ");
    let label = layout_size_label(layout.unit_size);
    hay_text.append(label.as_str());
    let hay = chars_of(hay_text.as_str());
    has_text(hay.as_slice(), needle.as_slice())
}

/// Whether the IC picker shows `chip` for the filter text `filter`: always
/// for an empty filter, else when its lower-case name or id contains it.
pub fn chip_matches(chip: Chip, filter: &str) -> (shown: bool)
    ensures
        shown == (lowercase(trimmed(filter@)).len() == 0 || contains_text(
            lowercase(chip.name@),
            lowercase(trimmed(filter@)),
        ) || contains_text(lowercase(chip.id@), lowercase(trimmed(filter@)))),
{
    let needle = filter_needle(filter);
    if needle.len() == 0 {
        return true;
    }
    let name = to_lowercase(chip.name);
    let name_chars = chars_of(name.as_str());
    if has_text(name_chars.as_slice(), needle.as_slice()) {
        return true;
    }
    let id = to_lowercase(chip.id);
    let id_chars = chars_of(id.as_str());
    has_text(id_chars.as_slice(), needle.as_slice())
}

} // verus!
