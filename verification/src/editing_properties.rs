//! Properties of the editing operations: what the pad-byte field shows and
//! reads back, what slot operations keep, and what name suggestions hold.
use vstd::prelude::*;
use crate::bank::{
    lemma_slot_total_prefix, lemma_slot_total_step, lemma_slot_total_whole, slot_total, BankSlot,
    RemovePolicy, RomBank,
};
use crate::placement::{data_after_remove, refilled, slots_after_remove, spread_chunk};
use crate::image::lemma_position_split;
use crate::labels::{
    all_hex, hex_digits_value, hex_value, is_white, lead_white, pad_digits, parse_hex_u8, trail_white,
    trimmed, without_plus,
};
use crate::names::{
    distinct_names, has_same_name, insert_ranked, lemma_candidates_len, name_candidates, rank_sort,
    same_name, scored_names, scored_run, suggested_names, printable_runs, ROM_NAME_MAX_CHARS,
    ROM_NAME_SUGGESTION_LIMIT,
};
use crate::text::{digit_char, hex_digits, hex_width};

verus! {

/// The pad byte as the editor shows it reads back as the same byte.
pub proof fn lemma_pad_text_round_trip(b: u8)
    ensures
        parse_hex_u8(pad_digits(hex_width(b as nat, 2))) == Some(b),
{
    let hi = (b / 16) as nat;
    let lo = (b % 16) as nat;
    let s = hex_width(b as nat, 2);
    let two = seq![digit_char(hi), digit_char(lo)];
    if b < 16 {
        assert(hex_digits(b as nat) == seq![digit_char(b as nat)]);
        assert(s =~= two);
    } else {
        assert(hex_digits(hi) == seq![digit_char(hi)]);
        assert(hex_digits(b as nat) == hex_digits(hi).push(digit_char(lo)));
        assert(s =~= two);
    }
    assert(!is_white(s[0]));
    assert(!is_white(s.last()));
    assert(lead_white(s) == 0);
    assert(trail_white(s) == 0);
    assert(trimmed(s) =~= s);
    assert(s[1] != 'x' && s[1] != 'X');
    assert(pad_digits(s) == s);
    assert(without_plus(s) == s);
    assert(hex_value(s[0]) == hi);
    assert(hex_value(s[1]) == lo);
    assert(all_hex(s));
    assert(s.drop_last() =~= seq![digit_char(hi)]);
    assert(seq![digit_char(hi)].drop_last() =~= Seq::<char>::empty());
    assert(hex_digits_value(Seq::<char>::empty()) == 0);
    assert(hex_digits_value(seq![digit_char(hi)]) == hi);
    assert(hex_digits_value(s) == hex_digits_value(s.drop_last()) * 16 + hex_value(s.last()) as nat);
    assert(hex_digits_value(s) == hi * 16 + lo);
    assert(hi * 16 + lo == b) by {
        vstd::arithmetic::div_mod::lemma_fundamental_div_mod(b as int, 16);
    }
}

/// Picking distinct names keeps at most the limit, never two that differ only
/// in ASCII case, and only names from the list.
pub proof fn lemma_distinct_names(cs: Seq<Seq<char>>)
    ensures
        distinct_names(cs).len() <= ROM_NAME_SUGGESTION_LIMIT,
        forall|i: int, j: int|
            0 <= i < j < distinct_names(cs).len() ==> !same_name(
                #[trigger] distinct_names(cs)[i],
                #[trigger] distinct_names(cs)[j],
            ),
        forall|i: int| 0 <= i < distinct_names(cs).len() ==> cs.contains(#[trigger] distinct_names(cs)[i]),
    decreases cs.len(),
{
    if cs.len() > 0 {
        let rest = cs.drop_last();
        lemma_distinct_names(rest);
        let acc = distinct_names(rest);
        let d = distinct_names(cs);
        assert forall|i: int| 0 <= i < d.len() implies cs.contains(#[trigger] d[i]) by {
            if i < acc.len() {
                assert(d[i] == acc[i]);
                assert(rest.contains(acc[i]));
                let k = choose|k: int| 0 <= k < rest.len() && rest[k] == acc[i];
                assert(cs[k] == rest[k]);
            } else {
                assert(d[i] == cs.last());
                assert(cs[cs.len() - 1] == cs.last());
            }
        }
        if acc.len() < ROM_NAME_SUGGESTION_LIMIT && !has_same_name(acc, cs.last()) {
            assert forall|i: int, j: int| 0 <= i < j < d.len() implies !same_name(
                #[trigger] d[i],
                #[trigger] d[j],
            ) by {
                assert(d[i] == acc[i]);
                if j < acc.len() {
                    assert(d[j] == acc[j]);
                } else {
                    assert(d[j] == cs.last());
                    assert(!same_name(acc[i], cs.last()));
                }
            }
        }
    }
}

/// Inserting into a ranked list adds the one entry and keeps the others.
pub proof fn lemma_insert_ranked_elems(s: Seq<(int, int, Seq<char>)>, x: (int, int, Seq<char>))
    ensures
        forall|t: (int, int, Seq<char>)| insert_ranked(s, x).contains(t) ==> s.contains(t) || t == x,
    decreases s.len(),
{
    if s.len() > 0 && crate::names::ranks_before(x, s.last()) {
        lemma_insert_ranked_elems(s.drop_last(), x);
        let r = insert_ranked(s.drop_last(), x);
        assert forall|t: (int, int, Seq<char>)| insert_ranked(s, x).contains(t) implies s.contains(t) || t == x by {
            let k = choose|k: int| 0 <= k < insert_ranked(s, x).len() && insert_ranked(s, x)[k] == t;
            if k < r.len() {
                assert(r[k] == t);
                assert(r.contains(t));
                if s.drop_last().contains(t) {
                    let m = choose|m: int| 0 <= m < s.drop_last().len() && s.drop_last()[m] == t;
                    assert(s[m] == t);
                }
            } else {
                assert(t == s.last());
                assert(s[s.len() - 1] == t);
            }
        }
    } else {
        assert forall|t: (int, int, Seq<char>)| insert_ranked(s, x).contains(t) implies s.contains(t) || t == x by {
            let k = choose|k: int| 0 <= k < s.push(x).len() && s.push(x)[k] == t;
            if k < s.len() {
                assert(s[k] == t);
            }
        }
    }
}

/// Sorting by rank keeps only entries of the list.
pub proof fn lemma_rank_sort_elems(s: Seq<(int, int, Seq<char>)>)
    ensures
        forall|t: (int, int, Seq<char>)| rank_sort(s).contains(t) ==> s.contains(t),
    decreases s.len(),
{
    if s.len() > 0 {
        lemma_rank_sort_elems(s.drop_last());
        lemma_insert_ranked_elems(rank_sort(s.drop_last()), s.last());
        assert forall|t: (int, int, Seq<char>)| rank_sort(s).contains(t) implies s.contains(t) by {
            if rank_sort(s.drop_last()).contains(t) {
                assert(s.drop_last().contains(t));
                let m = choose|m: int| 0 <= m < s.drop_last().len() && s.drop_last()[m] == t;
                assert(s[m] == t);
            } else {
                assert(t == s.last());
                assert(s[s.len() - 1] == t);
            }
        }
    }
}

/// Every scored candidate is at most `ROM_NAME_MAX_CHARS` characters long.
pub proof fn lemma_scored_names_short(runs: Seq<(int, Seq<char>)>, len: int)
    ensures
        forall|t: (int, int, Seq<char>)| scored_names(runs, len).contains(t) ==> t.2.len() <= ROM_NAME_MAX_CHARS,
    decreases runs.len(),
{
    if runs.len() > 0 {
        lemma_scored_names_short(runs.drop_last(), len);
        let before = scored_names(runs.drop_last(), len);
        let run = scored_run(runs.last().0, runs.last().1, len);
        lemma_candidates_len(runs.last().1);
        assert forall|t: (int, int, Seq<char>)| scored_names(runs, len).contains(t) implies t.2.len()
            <= ROM_NAME_MAX_CHARS by {
            let all = scored_names(runs, len);
            let k = choose|k: int| 0 <= k < all.len() && all[k] == t;
            if k < before.len() {
                assert(before[k] == t);
                assert(before.contains(t));
            } else {
                assert(run[k - before.len()] == t);
                assert(t.2 == name_candidates(runs.last().1)[k - before.len()]);
            }
        }
    }
}

/// The names suggested for a ROM are at most `ROM_NAME_SUGGESTION_LIMIT`,
/// each at most `ROM_NAME_MAX_CHARS` characters long, and no two of them
/// differ only in ASCII case.
pub proof fn lemma_suggestions_bounded(data: Seq<u8>)
    ensures
        suggested_names(data).len() <= ROM_NAME_SUGGESTION_LIMIT,
        forall|i: int|
            0 <= i < suggested_names(data).len() ==> (#[trigger] suggested_names(data)[i]).len()
                <= ROM_NAME_MAX_CHARS,
        forall|i: int, j: int|
            0 <= i < j < suggested_names(data).len() ==> !same_name(
                #[trigger] suggested_names(data)[i],
                #[trigger] suggested_names(data)[j],
            ),
{
    let scored = scored_names(printable_runs(data, 0), data.len() as int);
    let ranked = rank_sort(scored);
    let cs = ranked.map_values(|t: (int, int, Seq<char>)| t.2);
    lemma_distinct_names(cs);
    lemma_rank_sort_elems(scored);
    lemma_scored_names_short(printable_runs(data, 0), data.len() as int);
    let d = suggested_names(data);
    assert(d == distinct_names(cs));
    assert forall|i: int| 0 <= i < d.len() implies (#[trigger] d[i]).len() <= ROM_NAME_MAX_CHARS by {
        assert(cs.contains(d[i]));
        let k = choose|k: int| 0 <= k < cs.len() && cs[k] == d[i];
        assert(cs[k] == ranked[k].2);
        assert(ranked.contains(ranked[k]));
        assert(scored.contains(ranked[k]));
    }
}

/// Slot runs of the same lengths have the same total.
pub proof fn lemma_slot_total_same_lens(a: Seq<BankSlot>, b: Seq<BankSlot>)
    requires
        a.len() == b.len(),
        forall|j: int| 0 <= j < a.len() ==> (#[trigger] a[j]).len == b[j].len,
    ensures
        slot_total(a) == slot_total(b),
    decreases a.len(),
{
    if a.len() > 0 {
        lemma_slot_total_same_lens(a.drop_last(), b.drop_last());
    }
}

/// Slot `j` lies inside the bank, after every earlier slot and before every later one.
pub proof fn lemma_slot_bounds(rom: RomBank, i: int, j: int)
    requires
        rom.fits(),
        0 <= i < j < rom.slots@.len(),
    ensures
        rom.spec_slot_start(i) + rom.slots@[i].len <= rom.spec_slot_start(j),
        rom.spec_slot_start(j) + rom.slots@[j].len <= rom.spec_used(),
        rom.spec_used() <= rom.data@.len(),
{
    lemma_slot_total_step(rom.slots@, i);
    lemma_slot_total_prefix(rom.slots@, i + 1, j);
    lemma_slot_total_step(rom.slots@, j);
    lemma_slot_total_prefix(rom.slots@, j + 1, rom.slots@.len() as int);
    lemma_slot_total_whole(rom.slots@);
}

/// Slot `i` lies inside the bank.
pub proof fn lemma_slot_end(rom: RomBank, i: int)
    requires
        rom.fits(),
        0 <= i < rom.slots@.len(),
    ensures
        rom.spec_slot_start(i) + rom.slots@[i].len <= rom.spec_used(),
        rom.spec_used() <= rom.data@.len(),
{
    lemma_slot_total_step(rom.slots@, i);
    lemma_slot_total_prefix(rom.slots@, i + 1, rom.slots@.len() as int);
    lemma_slot_total_whole(rom.slots@);
}

/// Two banks whose slots have the same lengths have their slots at the same offsets.
pub proof fn lemma_same_offsets(a: RomBank, b: RomBank)
    requires
        a.slots@.len() == b.slots@.len(),
        forall|j: int| 0 <= j < a.slots@.len() ==> (#[trigger] a.slots@[j]).len == b.slots@[j].len,
    ensures
        forall|j: int| 0 <= j <= a.slots@.len() ==> #[trigger] a.spec_slot_start(j) == b.spec_slot_start(j),
        a.spec_used() == b.spec_used(),
{
    assert forall|j: int| 0 <= j <= a.slots@.len() implies #[trigger] a.spec_slot_start(j) == b.spec_slot_start(j) by {
        lemma_slot_total_same_lens(a.slots@.take(j), b.slots@.take(j));
    }
    lemma_slot_total_same_lens(a.slots@, b.slots@);
}

/// Removing slot `index` with `Blank` keeps every slot at its offset and
/// every other slot's bytes; the removed slot's bytes become padding.
pub proof fn lemma_blank_removal(before: RomBank, after: RomBank, index: int, pad: u8)
    requires
        before.fits(),
        0 <= index < before.slots@.len(),
        after.data@ == data_after_remove(before, index, RemovePolicy::Blank, pad),
        after.slots@ == slots_after_remove(before.slots@, index, RemovePolicy::Blank),
    ensures
        after.slots@.len() == before.slots@.len(),
        after.fits(),
        forall|j: int| 0 <= j < after.slots@.len() ==> #[trigger] after.spec_slot_start(j) == before.spec_slot_start(j),
        forall|j: int|
            0 <= j < after.slots@.len() && j != index ==> #[trigger] after.spec_slot_bytes(j)
                == before.spec_slot_bytes(j),
        after.spec_slot_bytes(index) == Seq::new(before.slots@[index].len as nat, |k: int| pad),
{
    lemma_same_offsets(after, before);
    lemma_slot_end(before, index);
    let si = before.spec_slot_start(index) as int;
    let li = before.slots@[index].len as int;
    assert forall|j: int| 0 <= j < after.slots@.len() && j != index implies #[trigger] after.spec_slot_bytes(j)
        == before.spec_slot_bytes(j) by {
        if j < index {
            lemma_slot_bounds(before, j, index);
        } else {
            lemma_slot_bounds(before, index, j);
        }
        assert(after.spec_slot_bytes(j) =~= before.spec_slot_bytes(j));
    }
    assert(after.spec_slot_bytes(index) =~= Seq::new(before.slots@[index].len as nat, |k: int| pad));
}

/// Slot totals of a run with slot `i` removed: the same before `i`, less
/// that slot's length from there on.
pub proof fn lemma_slot_total_removed(s: Seq<BankSlot>, i: int, m: int)
    requires
        0 <= i < s.len(),
        0 <= m <= s.len(),
    ensures
        m <= i ==> slot_total(s.remove(i).take(m)) == slot_total(s.take(m)),
        m > i ==> slot_total(s.remove(i).take(m - 1)) + s[i].len == slot_total(s.take(m)),
    decreases m,
{
    let r = s.remove(i);
    if m <= i {
        assert(r.take(m) =~= s.take(m));
    } else if m == i + 1 {
        assert(r.take(m - 1) =~= s.take(i));
        lemma_slot_total_step(s, i);
    } else {
        lemma_slot_total_removed(s, i, m - 1);
        assert(r.take(m - 1).drop_last() =~= r.take(m - 2));
        assert(r[m - 2] == s[m - 1]);
        lemma_slot_total_step(s, m - 1);
    }
}

/// Removing slot `index` with `Compact` keeps the earlier slots with their
/// bytes, moves every later slot down by the removed slot's length with its
/// bytes, and pads the space freed at the end of the occupied area.
pub proof fn lemma_compact_removal(before: RomBank, after: RomBank, index: int, pad: u8)
    requires
        before.fits(),
        0 <= index < before.slots@.len(),
        after.data@ == data_after_remove(before, index, RemovePolicy::Compact, pad),
        after.slots@ == slots_after_remove(before.slots@, index, RemovePolicy::Compact),
    ensures
        after.slots@.len() == before.slots@.len() - 1,
        after.fits(),
        after.spec_used() == before.spec_used() - before.slots@[index].len,
        forall|j: int|
            0 <= j < index ==> #[trigger] after.spec_slot_start(j) == before.spec_slot_start(j)
                && after.spec_slot_bytes(j) == before.spec_slot_bytes(j),
        forall|k: int|
            index <= k < after.slots@.len() ==> #[trigger] after.spec_slot_start(k) + before.slots@[index].len
                == before.spec_slot_start(k + 1),
        forall|k: int|
            index <= k < after.slots@.len() ==> #[trigger] after.spec_slot_bytes(k) == before.spec_slot_bytes(k + 1),
        after.data@.subrange(after.spec_used() as int, before.spec_used() as int) == Seq::new(
            before.slots@[index].len as nat,
            |k: int| pad,
        ),
{
    let s = before.slots@;
    let li = s[index].len as int;
    let si = before.spec_slot_start(index) as int;
    let used = before.spec_used() as int;
    lemma_slot_end(before, index);
    lemma_slot_total_whole(s);
    lemma_slot_total_whole(after.slots@);
    lemma_slot_total_removed(s, index, s.len() - 1);
    if index < s.len() - 1 {
        assert(after.spec_used() + li == before.spec_slot_start(s.len() - 1) + s[s.len() - 1].len) by {
            lemma_slot_total_removed(s, index, s.len() as int);
        }
        lemma_slot_total_step(s, s.len() - 1);
    } else {
        assert(after.slots@ =~= s.take(index));
        lemma_slot_total_step(s, index);
    }
    assert(after.spec_used() == used - li);
    assert forall|j: int| 0 <= j < index implies #[trigger] after.spec_slot_start(j) == before.spec_slot_start(j)
        && after.spec_slot_bytes(j) == before.spec_slot_bytes(j) by {
        lemma_slot_total_removed(s, index, j);
        lemma_slot_bounds(before, j, index);
        assert(after.slots@[j] == s[j]);
        assert(after.spec_slot_bytes(j) =~= before.spec_slot_bytes(j));
    }
    assert forall|k: int| index <= k < after.slots@.len() implies #[trigger] after.spec_slot_start(k)
        + before.slots@[index].len == before.spec_slot_start(k + 1) by {
        lemma_slot_total_removed(s, index, k + 1);
    }
    assert forall|k: int| index <= k < after.slots@.len() implies #[trigger] after.spec_slot_bytes(k)
        == before.spec_slot_bytes(k + 1) by {
        lemma_slot_total_removed(s, index, k + 1);
        lemma_slot_bounds(before, index, k + 1);
        assert(after.slots@[k] == s[k + 1]);
        assert(after.spec_slot_bytes(k) =~= before.spec_slot_bytes(k + 1));
    }
    assert(after.data@.subrange(after.spec_used() as int, used) =~= Seq::new(li as nat, |k: int| pad));
}

/// After a ROM is placed in the free space of a bank, the new last slot
/// holds exactly the ROM's bytes and every earlier slot keeps its bytes.
pub proof fn lemma_add_into_free(
    before: RomBank,
    after: RomBank,
    label: String,
    source: Option<String>,
    len: usize,
    content: Seq<u8>,
)
    requires
        before.fits(),
        len == content.len(),
        0 < content.len() <= before.data@.len() - before.spec_used(),
        after.data@ == before.data@.take(before.spec_used() as int) + content + before.data@.skip(
            (before.spec_used() + content.len()) as int,
        ),
        after.slots@ == before.slots@.push(BankSlot { label, source_path: source, len, blank: false }),
    ensures
        after.fits(),
        after.spec_used() == before.spec_used() + content.len(),
        after.spec_slot_start(before.slots@.len() as int) == before.spec_used(),
        after.spec_slot_bytes(before.slots@.len() as int) == content,
        forall|j: int|
            0 <= j < before.slots@.len() ==> #[trigger] after.spec_slot_bytes(j) == before.spec_slot_bytes(j),
{
    let n = before.slots@.len() as int;
    let used = before.spec_used() as int;
    lemma_slot_total_whole(before.slots@);
    assert(after.slots@.take(n) =~= before.slots@);
    lemma_slot_total_whole(after.slots@);
    assert(after.slots@.drop_last() =~= before.slots@);
    assert(after.spec_slot_start(n) == used);
    assert(after.spec_slot_bytes(n) =~= content);
    assert forall|j: int| 0 <= j < n implies #[trigger] after.spec_slot_bytes(j) == before.spec_slot_bytes(j) by {
        assert(after.slots@.take(j) =~= before.slots@.take(j));
        lemma_slot_end(before, j);
        assert(after.spec_slot_bytes(j) =~= before.spec_slot_bytes(j));
    }
}

/// After a ROM is loaded into slot `slot`, the slot holds the ROM and then
/// padding to its end; every slot keeps its offset and every other slot its bytes.
pub proof fn lemma_load_into_slot(
    before: RomBank,
    after: RomBank,
    slot: int,
    label: String,
    source: Option<String>,
    content: Seq<u8>,
    pad: u8,
)
    requires
        before.fits(),
        0 <= slot < before.slots@.len(),
        0 < content.len() <= before.slots@[slot].len,
        after.data@ == refilled(
            before.data@,
            before.spec_slot_start(slot) as int,
            content,
            before.slots@[slot].len as int,
            pad,
        ),
        after.slots@ == before.slots@.update(
            slot,
            BankSlot { label, source_path: source, len: before.slots@[slot].len, blank: false },
        ),
    ensures
        after.fits(),
        forall|j: int| 0 <= j < after.slots@.len() ==> #[trigger] after.spec_slot_start(j) == before.spec_slot_start(j),
        after.spec_slot_bytes(slot) == content + Seq::new((before.slots@[slot].len - content.len()) as nat, |k: int| pad),
        forall|j: int|
            0 <= j < after.slots@.len() && j != slot ==> #[trigger] after.spec_slot_bytes(j)
                == before.spec_slot_bytes(j),
{
    lemma_same_offsets(after, before);
    lemma_slot_end(before, slot);
    assert(after.spec_slot_bytes(slot) =~= content + Seq::new(
        (before.slots@[slot].len - content.len()) as nat,
        |k: int| pad,
    ));
    assert forall|j: int| 0 <= j < after.slots@.len() && j != slot implies #[trigger] after.spec_slot_bytes(j)
        == before.spec_slot_bytes(j) by {
        if j < slot {
            lemma_slot_bounds(before, j, slot);
        } else {
            lemma_slot_bounds(before, slot, j);
        }
        assert(after.spec_slot_bytes(j) =~= before.spec_slot_bytes(j));
    }
}

/// A ROM spread over banks keeps its bytes in order: byte `p` of the ROM is
/// byte `p % unit` of piece `p / unit`.
pub proof fn lemma_spread_keeps_order(data: Seq<u8>, unit: nat, pad: u8, p: int)
    requires
        unit > 0,
        0 <= p < data.len(),
    ensures
        0 <= p % (unit as int) < unit,
        spread_chunk(data, unit, p / (unit as int), pad)[p % (unit as int)] == data[p],
{
    lemma_position_split(p, unit as int);
    vstd::arithmetic::mul::lemma_mul_is_commutative(p / (unit as int), unit as int);
}

} // verus!
