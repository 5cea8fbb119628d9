//! Properties that relate several operations of the library.
use vstd::prelude::*;
use crate::bank::{BankLayout, BankLayoutView, BankSlot, RomBank, SlotSpec, SlotSpecView, free_label, slot_total, spec_total};
use crate::image::{
    ProjectImage, all_pad, banks_from, bank_chunk, count_some, imported_bank, lemma_bank_of,
    lemma_count_some_append, lemma_count_some_zero, lemma_position_split, resized, tail_has_data,
    metadata_lines, header_lines, bank_line, remainder_lines, layout_lines_upto, rom_layout_lines,
    slot_line, free_line, primary_label_of, source_text, lemma_offset_in_bank, sidecar_overflows, uses_sidecar,
    image_sums, rom_sums, rom_sums_upto, shared_values,
};
use crate::sidecar::{
    apply_line, first_of, lemma_first_of, lemma_first_of_bounds, lemma_dec_digits_value, lemma_parse_dec,
    line_at, line_end, lines_from, parse_layout_text, parse_lines, split_bars, starts_with, text_lines,
    entry_or_default, layouts_view,
};
use crate::catalog::{chip_table, layout_table, lemma_bank_within_chip};
use crate::text::{dec, dec_digits, digit_char, hex_digits, hex_width, join_lines};
use crate::labels::ends_with;

verus! {

/// Switching chips drops data exactly when at least one populated bank
/// would be dropped.
pub proof fn lemma_drops_data_iff_dropped_banks(banks: Seq<Option<RomBank>>, new_count: nat)
    ensures
        (exists|i: int| new_count <= i < banks.len() && #[trigger] banks[i] is Some) <==> count_some(
            banks_from(banks, new_count),
        ) > 0,
{
    let tail = banks_from(banks, new_count);
    lemma_count_some_zero(tail);
    if new_count <= banks.len() {
        if exists|i: int| new_count <= i < banks.len() && #[trigger] banks[i] is Some {
            let i = choose|i: int| new_count <= i < banks.len() && #[trigger] banks[i] is Some;
            assert(tail[i - new_count] is Some);
        }
        if count_some(tail) > 0 {
            let k = choose|k: int| 0 <= k < tail.len() && !(tail[k] is None);
            assert(banks[k + new_count] is Some);
        }
    }
}

/// After a chip change the image holds the populated banks it had, less the
/// ones the change drops.
pub proof fn lemma_chip_change_population(banks: Seq<Option<RomBank>>, new_count: nat)
    ensures
        count_some(resized(banks, new_count)) == count_some(banks) - count_some(banks_from(banks, new_count)),
{
    if new_count <= banks.len() {
        assert(banks =~= banks.take(new_count as int) + banks.skip(new_count as int));
        lemma_count_some_append(banks.take(new_count as int), banks.skip(new_count as int));
    } else {
        let extra = resized(banks, new_count).skip(banks.len() as int);
        assert(resized(banks, new_count) =~= banks + extra);
        lemma_count_some_append(banks, extra);
        lemma_count_some_zero(extra);
        assert(banks_from(banks, new_count) =~= Seq::<Option<RomBank>>::empty());
    }
}

/// Exporting an image that an import of `data` built gives back `data` on
/// the bank grid, and padding past it.
pub proof fn lemma_import_then_export(
    image: ProjectImage,
    data: Seq<u8>,
    slot_layout: Map<usize, BankLayout>,
)
    requires
        image.layout.unit_size > 0,
        data.len() == image.chip.capacity,
        image.banks@.len() == image.spec_bank_count(),
        forall|b: int|
            0 <= b < image.spec_bank_count() ==> #[trigger] imported_bank(
                image.banks@[b],
                image.chip,
                image.layout,
                data,
                image.pad_byte,
                slot_layout,
                b,
            ),
    ensures
        image.spec_export().len() == data.len(),
        forall|p: int|
            0 <= p < image.spec_bank_count() * image.layout.unit_size ==> #[trigger] image.spec_export()[p]
                == data[p],
        forall|p: int|
            image.spec_bank_count() * image.layout.unit_size <= p < data.len() ==> #[trigger] image.spec_export()[p]
                == image.pad_byte,
{
    let unit = image.layout.unit_size as int;
    let count = image.spec_bank_count() as int;
    assert forall|p: int| 0 <= p < count * unit implies #[trigger] image.spec_export()[p] == data[p] by {
        lemma_position_split(p, unit);
        let b = p / unit;
        let j = p % unit;
        lemma_bank_of(p, count, unit);
        crate::catalog::lemma_bank_within_chip(b as nat, unit as nat, image.chip.capacity as nat);
        assert(imported_bank(image.banks@[b], image.chip, image.layout, data, image.pad_byte, slot_layout, b));
        let chunk = bank_chunk(data, image.layout, b);
        assert(chunk[j] == data[p]);
        if image.banks@[b] is None {
            assert(all_pad(chunk, image.pad_byte));
        }
    }
    assert forall|p: int| count * unit <= p < data.len() implies #[trigger] image.spec_export()[p]
        == image.pad_byte by {
        lemma_bank_of(p, count, unit);
    }
}

/// An import without a warning round-trips: exporting the imported image
/// gives back exactly the imported bytes.
pub proof fn lemma_import_export_round_trip(
    image: ProjectImage,
    data: Seq<u8>,
    slot_layout: Map<usize, BankLayout>,
)
    requires
        image.layout.unit_size > 0,
        data.len() == image.chip.capacity,
        image.banks@.len() == image.spec_bank_count(),
        forall|b: int|
            0 <= b < image.spec_bank_count() ==> #[trigger] imported_bank(
                image.banks@[b],
                image.chip,
                image.layout,
                data,
                image.pad_byte,
                slot_layout,
                b,
            ),
        !tail_has_data(image.chip, image.layout, data, image.pad_byte),
    ensures
        image.spec_export() == data,
{
    lemma_import_then_export(image, data, slot_layout);
    let mapped = image.spec_bank_count() * image.layout.unit_size;
    assert forall|p: int| 0 <= p < data.len() implies image.spec_export()[p] == data[p] by {
        if p >= mapped {
            assert(data[p] == image.pad_byte);
        }
    }
    assert(image.spec_export() =~= data);
}

/// Re-dividing an image into banks of another size keeps every byte that
/// the new bank grid covers, and pads the rest.
pub proof fn lemma_relayout_keeps_bytes(before: ProjectImage, after: ProjectImage)
    requires
        after.layout.unit_size > 0,
        after.chip == before.chip,
        after.pad_byte == before.pad_byte,
        after.banks@.len() == after.spec_bank_count(),
        forall|b: int|
            0 <= b < after.spec_bank_count() ==> #[trigger] imported_bank(
                after.banks@[b],
                before.chip,
                after.layout,
                before.spec_export(),
                before.pad_byte,
                Map::empty(),
                b,
            ),
    ensures
        after.spec_export().len() == before.spec_export().len(),
        forall|p: int|
            0 <= p < after.spec_bank_count() * after.layout.unit_size ==> #[trigger] after.spec_export()[p]
                == before.spec_export()[p],
        forall|p: int|
            after.spec_bank_count() * after.layout.unit_size <= p < after.chip.capacity
                ==> #[trigger] after.spec_export()[p] == after.pad_byte,
{
    lemma_import_then_export(after, before.spec_export(), Map::empty());
}

/// No image holds data past its last whole bank: whatever its banks hold,
/// its export there is the pad byte.
pub proof fn lemma_export_beyond_grid(image: ProjectImage, p: int)
    requires
        image.layout.unit_size > 0,
        image.spec_bank_count() * image.layout.unit_size <= p < image.chip.capacity,
    ensures
        image.spec_export()[p] == image.pad_byte,
{
    let unit = image.layout.unit_size as int;
    let c = image.spec_bank_count() as int;
    assert(p / unit >= c) by (nonlinear_arith)
        requires
            unit > 0,
            c >= 0,
            c * unit <= p,
    ;
}

/// Data past the last whole bank of a layout cannot survive re-dividing the
/// image into that layout: every image of the chip with that layout exports
/// something else.
pub proof fn lemma_relayout_loses_tail(before: ProjectImage, after: ProjectImage, p: int)
    requires
        after.layout.unit_size > 0,
        after.chip == before.chip,
        after.pad_byte == before.pad_byte,
        after.spec_bank_count() * after.layout.unit_size <= p < before.chip.capacity,
        before.spec_export()[p] != before.pad_byte,
    ensures
        after.spec_export() != before.spec_export(),
{
    lemma_export_beyond_grid(after, p);
}

/// Re-dividing an image into banks of another size keeps the exported image
/// whole when nothing but padding lies past the new layout's last whole bank.
pub proof fn lemma_relayout_preserves_export(before: ProjectImage, after: ProjectImage)
    requires
        after.layout.unit_size > 0,
        after.chip == before.chip,
        after.pad_byte == before.pad_byte,
        after.banks@.len() == after.spec_bank_count(),
        forall|b: int|
            0 <= b < after.spec_bank_count() ==> #[trigger] imported_bank(
                after.banks@[b],
                before.chip,
                after.layout,
                before.spec_export(),
                before.pad_byte,
                Map::empty(),
                b,
            ),
        forall|p: int|
            after.spec_bank_count() * after.layout.unit_size <= p < before.chip.capacity
                ==> #[trigger] before.spec_export()[p] == before.pad_byte,
    ensures
        after.spec_export() == before.spec_export(),
{
    lemma_relayout_keeps_bytes(before, after);
    let a = after.spec_export();
    let e = before.spec_export();
    assert forall|p: int| 0 <= p < a.len() implies a[p] == e[p] by {
        if p >= after.spec_bank_count() * after.layout.unit_size {
            assert(e[p] == before.pad_byte);
        }
    }
    assert(a =~= e);
}

/// The summary line of a populated bank says where its first slot came
/// from: it ends with ` | source: ` and that slot's source path, and only
/// when the first slot has no source does it end with
/// ` | source: imported from merged image`.
pub proof fn lemma_summary_names_source(image: ProjectImage, binary_name: Seq<char>, b: int)
    requires
        0 <= b < image.banks@.len(),
        image.banks@[b] is Some,
    ensures
        image.banks@[b]->Some_0.slots@.len() > 0 ==> (image.banks@[b]->Some_0.slots@[0].source_path matches Some(
            p,
        ) ==> ends_with(metadata_lines(image, binary_name)[9 + b], " | source: "@ + p@)),
        !(image.banks@[b]->Some_0.slots@.len() > 0 && image.banks@[b]->Some_0.slots@[0].source_path is Some)
            ==> ends_with(metadata_lines(image, binary_name)[9 + b], " | source: imported from merged image"@),
{
    let rom = image.banks@[b]->Some_0;
    let lines = metadata_lines(image, binary_name);
    assert(header_lines(image, binary_name).len() == 9);
    assert(lines[9 + b] == bank_line(image, b as nat));
    let unit = image.layout.unit_size as nat;
    let start = (b as nat) * unit;
    let end = (start + unit - 1) as nat;
    let pre = "- bank "@ + dec(b as nat) + ": "@ + primary_label_of(rom) + " | 0x"@ + hex_width(start, 5) + "-0x"@
        + hex_width(end, 5) + " | checksum "@ + hex_width(crate::bank::checksum(rom.data@) as nat, 4);
    let tail = " | source: "@ + source_text(rom);
    assert(bank_line(image, b as nat) =~= pre + tail);
    assert((pre + tail).skip((pre + tail).len() - tail.len()) =~= tail);
    reveal_strlit(" | source: ");
    reveal_strlit("imported from merged image");
    reveal_strlit(" | source: imported from merged image");
    assert(" | source: "@ + "imported from merged image"@ =~= " | source: imported from merged image"@);
}

/// Slot `j` of bank `b` holds a ROM: the bank is populated and the slot is
/// not blank.
pub open spec fn live_slot(banks: Seq<Option<RomBank>>, b: int, j: int) -> bool {
    &&& 0 <= b < banks.len()
    &&& banks[b] is Some
    &&& 0 <= j < banks[b]->Some_0.slots@.len()
    &&& !banks[b]->Some_0.slots@[j].blank
}

/// The checksum of the bytes of slot `j` of bank `b`.
pub open spec fn slot_checksum(banks: Seq<Option<RomBank>>, b: int, j: int) -> u16 {
    crate::bank::checksum(banks[b]->Some_0.spec_slot_bytes(j))
}

/// The indices of the non-blank slots among the first `n` of `rom`.
spec fn live_upto(rom: RomBank, n: nat) -> Seq<int>
    decreases n,
{
    if n == 0 {
        Seq::empty()
    } else {
        live_upto(rom, (n - 1) as nat) + if rom.slots@[n - 1].blank {
            Seq::empty()
        } else {
            seq![n - 1]
        }
    }
}

/// The checksums `rom_sums_upto` lists are those of the non-blank slots,
/// each once, in slot order.
proof fn lemma_live_upto(rom: RomBank, n: nat)
    requires
        n <= rom.slots@.len(),
    ensures
        live_upto(rom, n).len() == rom_sums_upto(rom, n).len(),
        forall|i: int|
            0 <= i < live_upto(rom, n).len() ==> 0 <= #[trigger] live_upto(rom, n)[i] < n && !rom.slots@[live_upto(
                rom,
                n,
            )[i]].blank && rom_sums_upto(rom, n)[i] == crate::bank::checksum(rom.spec_slot_bytes(live_upto(rom, n)[i])),
        forall|i: int, k: int|
            0 <= i < k < live_upto(rom, n).len() ==> #[trigger] live_upto(rom, n)[i] < #[trigger] live_upto(rom, n)[k],
        forall|j: int|
            0 <= j < n && !rom.slots@[j].blank ==> exists|i: int|
                0 <= i < live_upto(rom, n).len() && #[trigger] live_upto(rom, n)[i] == j,
    decreases n,
{
    if n > 0 {
        let m = (n - 1) as nat;
        lemma_live_upto(rom, m);
        let p = live_upto(rom, m);
        let q = live_upto(rom, n);
        if rom.slots@[m as int].blank {
            assert(q =~= p);
            assert(rom_sums_upto(rom, n) =~= rom_sums_upto(rom, m));
            assert forall|j: int| 0 <= j < n && !rom.slots@[j].blank implies exists|i: int|
                0 <= i < q.len() && #[trigger] q[i] == j by {
                assert(j < m);
            }
        } else {
            assert(q =~= p.push(m as int));
            assert(rom_sums_upto(rom, n) =~= rom_sums_upto(rom, m).push(
                crate::bank::checksum(rom.spec_slot_bytes(m as int)),
            ));
            assert forall|i: int| 0 <= i < q.len() implies 0 <= #[trigger] q[i] < n && !rom.slots@[q[i]].blank
                && rom_sums_upto(rom, n)[i] == crate::bank::checksum(rom.spec_slot_bytes(q[i])) by {
                if i < p.len() {
                    assert(q[i] == p[i]);
                }
            }
            assert forall|i: int, k: int| 0 <= i < k < q.len() implies #[trigger] q[i] < #[trigger] q[k] by {
                if k < p.len() {
                    assert(q[i] == p[i] && q[k] == p[k]);
                } else {
                    assert(q[i] == p[i]);
                }
            }
            assert forall|j: int| 0 <= j < n && !rom.slots@[j].blank implies exists|i: int|
                0 <= i < q.len() && #[trigger] q[i] == j by {
                if j < m {
                    let i = choose|i: int| 0 <= i < p.len() && #[trigger] p[i] == j;
                    assert(q[i] == p[i]);
                } else {
                    assert(q[p.len() as int] == j);
                }
            }
        }
    }
}

/// The non-blank slots of the populated banks, as (bank, slot), in order.
spec fn live_positions(banks: Seq<Option<RomBank>>) -> Seq<(int, int)>
    decreases banks.len(),
{
    if banks.len() == 0 {
        Seq::empty()
    } else {
        live_positions(banks.drop_last()) + match banks.last() {
            Some(rom) => live_upto(rom, rom.slots@.len()).map_values(|j: int| (banks.len() - 1, j)),
            None => Seq::empty(),
        }
    }
}

/// `image_sums` lists the checksum of every non-blank slot of every
/// populated bank, each once, in bank and slot order.
proof fn lemma_live_positions(banks: Seq<Option<RomBank>>)
    ensures
        live_positions(banks).len() == image_sums(banks).len(),
        forall|i: int|
            0 <= i < live_positions(banks).len() ==> live_slot(banks, (#[trigger] live_positions(banks)[i]).0, live_positions(
                banks,
            )[i].1) && image_sums(banks)[i] == slot_checksum(banks, live_positions(banks)[i].0, live_positions(banks)[i].1),
        forall|i: int, k: int|
            0 <= i < k < live_positions(banks).len() ==> (#[trigger] live_positions(banks)[i]).0 < (
            #[trigger] live_positions(banks)[k]).0 || (live_positions(banks)[i].0 == live_positions(banks)[k].0
                && live_positions(banks)[i].1 < live_positions(banks)[k].1),
        forall|b: int, j: int|
            #[trigger] live_slot(banks, b, j) ==> exists|i: int|
                0 <= i < live_positions(banks).len() && #[trigger] live_positions(banks)[i] == (b, j),
    decreases banks.len(),
{
    if banks.len() > 0 {
        let front = banks.drop_last();
        let last = banks.len() - 1;
        lemma_live_positions(front);
        let p = live_positions(front);
        let q = live_positions(banks);
        assert forall|b: int, j: int| 0 <= b < last implies live_slot(banks, b, j) == live_slot(front, b, j)
            && slot_checksum(banks, b, j) == slot_checksum(front, b, j) by {
            assert(banks[b] == front[b]);
        }
        match banks.last() {
            None => {
                assert(q =~= p);
                assert(image_sums(banks) =~= image_sums(front));
                assert forall|b: int, j: int| #[trigger] live_slot(banks, b, j) implies exists|i: int|
                    0 <= i < q.len() && #[trigger] q[i] == (b, j) by {
                    assert(live_slot(front, b, j));
                }
                assert forall|i: int| 0 <= i < q.len() implies live_slot(banks, (#[trigger] q[i]).0, q[i].1)
                    && image_sums(banks)[i] == slot_checksum(banks, q[i].0, q[i].1) by {
                    assert(live_slot(front, p[i].0, p[i].1));
                }
            },
            Some(rom) => {
                let n = rom.slots@.len();
                lemma_live_upto(rom, n);
                let l = live_upto(rom, n);
                let r = l.map_values(|j: int| (last, j));
                assert(q =~= p + r);
                assert(image_sums(banks) =~= image_sums(front) + rom_sums(rom));
                assert forall|i: int| 0 <= i < q.len() implies live_slot(banks, (#[trigger] q[i]).0, q[i].1)
                    && image_sums(banks)[i] == slot_checksum(banks, q[i].0, q[i].1) by {
                    if i < p.len() {
                        assert(q[i] == p[i]);
                        assert(live_slot(front, p[i].0, p[i].1));
                    } else {
                        let t = i - p.len();
                        assert(q[i] == (last, l[t]));
                        assert(image_sums(banks)[i] == rom_sums(rom)[t]);
                    }
                }
                assert forall|i: int, k: int| 0 <= i < k < q.len() implies (#[trigger] q[i]).0 < (#[trigger] q[k]).0
                    || (q[i].0 == q[k].0 && q[i].1 < q[k].1) by {
                    if k < p.len() {
                        assert(q[i] == p[i] && q[k] == p[k]);
                    } else if i < p.len() {
                        assert(q[i] == p[i]);
                        assert(live_slot(front, p[i].0, p[i].1));
                        assert(q[k].0 == last);
                    } else {
                        assert(q[i] == (last, l[i - p.len()]));
                        assert(q[k] == (last, l[k - p.len()]));
                    }
                }
                assert forall|b: int, j: int| #[trigger] live_slot(banks, b, j) implies exists|i: int|
                    0 <= i < q.len() && #[trigger] q[i] == (b, j) by {
                    if b < last {
                        assert(live_slot(front, b, j));
                        let i = choose|i: int| 0 <= i < p.len() && #[trigger] p[i] == (b, j);
                        assert(q[i] == p[i]);
                    } else {
                        assert(banks[b] == Some(rom));
                        let t = choose|t: int| 0 <= t < l.len() && #[trigger] l[t] == j;
                        assert(q[p.len() + t] == (b, j));
                    }
                }
            },
        }
    }
}

/// A checksum is flagged as a duplicate exactly when two different
/// non-blank slots of populated banks share it: a blank slot never counts.
pub proof fn lemma_duplicates_are_shared_slots(banks: Seq<Option<RomBank>>, c: u16)
    ensures
        shared_values(image_sums(banks)).contains(c) <==> exists|b1: int, j1: int, b2: int, j2: int|
            (b1 != b2 || j1 != j2) && #[trigger] live_slot(banks, b1, j1) && #[trigger] live_slot(banks, b2, j2)
                && slot_checksum(banks, b1, j1) == c && slot_checksum(banks, b2, j2) == c,
{
    lemma_live_positions(banks);
    let sums = image_sums(banks);
    let p = live_positions(banks);
    if shared_values(sums).contains(c) {
        let (i, k) = choose|i: int, k: int| 0 <= i < k < sums.len() && sums[i] == c && sums[k] == c;
        let x = p[i];
        let y = p[k];
        assert(live_slot(banks, x.0, x.1) && live_slot(banks, y.0, y.1));
        assert(x.0 < y.0 || (x.0 == y.0 && x.1 < y.1));
    }
    if exists|b1: int, j1: int, b2: int, j2: int|
        (b1 != b2 || j1 != j2) && #[trigger] live_slot(banks, b1, j1) && #[trigger] live_slot(banks, b2, j2)
            && slot_checksum(banks, b1, j1) == c && slot_checksum(banks, b2, j2) == c {
        let (b1, j1, b2, j2) = choose|b1: int, j1: int, b2: int, j2: int|
            (b1 != b2 || j1 != j2) && #[trigger] live_slot(banks, b1, j1) && #[trigger] live_slot(banks, b2, j2)
                && slot_checksum(banks, b1, j1) == c && slot_checksum(banks, b2, j2) == c;
        let i = choose|i: int| 0 <= i < p.len() && #[trigger] p[i] == (b1, j1);
        let k = choose|k: int| 0 <= k < p.len() && #[trigger] p[k] == (b2, j2);
        assert(i != k);
        assert(sums[i] == c && sums[k] == c);
        if i < k {
            assert(shared_values(sums).contains(c));
        } else {
            assert(shared_values(sums).contains(c));
        }
    }
}

/// `l` without a trailing carriage return.
pub open spec fn strip_cr(l: Seq<char>) -> Seq<char> {
    if l.len() > 0 && l.last() == '\r' {
        l.drop_last()
    } else {
        l
    }
}

/// `s` holds no line feed.
pub open spec fn no_newline(s: Seq<char>) -> bool {
    forall|i: int| 0 <= i < s.len() ==> s[i] != '\n'
}

/// `s` fits on one line and keeps its last character when read back.
pub open spec fn one_line(s: Seq<char>) -> bool {
    no_newline(s) && (s.len() == 0 || s.last() != '\r')
}

/// The text of a bank that the sidecar must carry unchanged.
pub open spec fn bank_text_fits_lines(rom: RomBank) -> bool {
    &&& one_line(rom.remainder_label@)
    &&& forall|j: int|
        0 <= j < rom.slots@.len() ==> one_line((#[trigger] rom.slots@[j]).label@) && (rom.slots@[j].source_path
            is Some ==> no_newline(rom.slots@[j].source_path->Some_0@))
}

/// Whether the sidecar holds any line for a populated bank.
pub open spec fn has_layout_lines(rom: RomBank) -> bool {
    rom.slots@.len() > 0 || rom.spec_used() < rom.data@.len()
}

/// What the sidecar records about one slot.
pub open spec fn slot_record(slot: BankSlot) -> SlotSpecView {
    SlotSpecView { len: slot.len, label: slot.label@, blank: slot.blank }
}

/// What the sidecar records about one populated bank.
pub open spec fn rom_record(rom: RomBank) -> BankLayoutView {
    BankLayoutView {
        slots: rom.slots@.map_values(|s: BankSlot| slot_record(s)),
        remainder_label: if rom.spec_used() < rom.data@.len() {
            rom.remainder_label@
        } else {
            Seq::empty()
        },
    }
}

/// The slot layouts that the sidecar of banks `0..n` records.
pub open spec fn recorded_layouts_upto(banks: Seq<Option<RomBank>>, n: nat) -> Map<usize, BankLayoutView> {
    Map::new(
        |b: usize| b < n && b < banks.len() && banks[b as int] is Some && has_layout_lines(banks[b as int]->Some_0),
        |b: usize| rom_record(banks[b as int]->Some_0),
    )
}

/// The slot layouts that the sidecar of `banks` records.
pub open spec fn recorded_layouts(banks: Seq<Option<RomBank>>) -> Map<usize, BankLayoutView> {
    recorded_layouts_upto(banks, banks.len())
}

/// Layouts read from `lines`, starting from `m`.
pub open spec fn parse_onto(m: Map<usize, BankLayoutView>, lines: Seq<Seq<char>>) -> Map<usize, BankLayoutView>
    decreases lines.len(),
{
    if lines.len() == 0 {
        m
    } else {
        apply_line(parse_onto(m, lines.drop_last()), lines.last())
    }
}

proof fn lemma_parse_lines_onto(lines: Seq<Seq<char>>)
    ensures
        parse_lines(lines) == parse_onto(Map::empty(), lines),
    decreases lines.len(),
{
    if lines.len() > 0 {
        lemma_parse_lines_onto(lines.drop_last());
    }
}

proof fn lemma_parse_onto_append(m: Map<usize, BankLayoutView>, a: Seq<Seq<char>>, b: Seq<Seq<char>>)
    ensures
        parse_onto(m, a + b) == parse_onto(parse_onto(m, a), b),
    decreases b.len(),
{
    if b.len() == 0 {
        assert(a + b =~= a);
    } else {
        assert((a + b).drop_last() =~= a + b.drop_last());
        lemma_parse_onto_append(m, a, b.drop_last());
    }
}

/// A line whose first character is neither `s` nor `f` is ignored.
pub open spec fn inert(l: Seq<char>) -> bool {
    l.len() == 0 || (l[0] != 's' && l[0] != 'f')
}

proof fn lemma_inert_lines(m: Map<usize, BankLayoutView>, lines: Seq<Seq<char>>)
    requires
        forall|i: int| 0 <= i < lines.len() ==> inert(#[trigger] lines[i]),
    ensures
        parse_onto(m, lines.map_values(|l: Seq<char>| strip_cr(l))) == m,
    decreases lines.len(),
{
    reveal_strlit("slot|");
    reveal_strlit("free|");
    let mapped = lines.map_values(|l: Seq<char>| strip_cr(l));
    if lines.len() > 0 {
        assert(mapped.drop_last() =~= lines.drop_last().map_values(|l: Seq<char>| strip_cr(l)));
        lemma_inert_lines(m, lines.drop_last());
        let l = lines.last();
        assert(inert(lines[lines.len() - 1]));
        let sl = strip_cr(l);
        if sl.len() > 0 {
            assert(sl[0] == l[0]);
        }
        assert(!starts_with(sl, "slot|"@)) by {
            if sl.len() >= 5 {
                assert(sl.take(5)[0] == sl[0]);
            }
        }
        assert(!starts_with(sl, "free|"@)) by {
            if sl.len() >= 5 {
                assert(sl.take(5)[0] == sl[0]);
            }
        }
    }
}

proof fn lemma_lines_shift(a: Seq<char>, r: Seq<char>, k: int)
    requires
        0 <= k,
    ensures
        lines_from(a + r, a.len() + k) == lines_from(r, k),
    decreases r.len() - k,
{
    let t = a + r;
    if k < r.len() {
        assert(t.skip(a.len() + k) =~= r.skip(k));
        lemma_first_of_bounds(r.skip(k), '\n');
        assert(t.subrange(a.len() + k, line_end(t, a.len() + k)) =~= r.subrange(k, line_end(r, k)));
        assert(line_at(t, a.len() + k) == line_at(r, k));
        if line_end(r, k) < r.len() {
            lemma_lines_shift(a, r, line_end(r, k) + 1);
        }
    }
}

proof fn lemma_lines_first(l: Seq<char>, r: Seq<char>)
    requires
        no_newline(l),
    ensures
        lines_from(l + seq!['\n'] + r, 0) == seq![strip_cr(l)] + lines_from(r, 0),
{
    let t = l + seq!['\n'] + r;
    lemma_first_of(t.skip(0), '\n', l.len() as int);
    assert(t.skip(0) =~= t);
    assert(t.subrange(0, l.len() as int) =~= l);
    assert(line_at(t, 0) == strip_cr(l));
    lemma_lines_shift(l + seq!['\n'], r, 0);
    assert(l + seq!['\n'] + r == (l + seq!['\n']) + r);
}

proof fn lemma_join_front(l: Seq<char>, rest: Seq<Seq<char>>)
    requires
        rest.len() >= 1,
    ensures
        join_lines(seq![l] + rest) == l + seq!['\n'] + join_lines(rest),
    decreases rest.len(),
{
    let all = seq![l] + rest;
    if rest.len() == 1 {
        assert(all.drop_last() =~= seq![l]);
        assert(all.last() == rest[0]);
        assert(join_lines(seq![l]) == l);
        assert(join_lines(all) == join_lines(all.drop_last()) + seq!['\n'] + all.last());
        assert(join_lines(rest) == rest[0]);
    } else {
        assert(all.drop_last() =~= seq![l] + rest.drop_last());
        assert(all.last() == rest.last());
        lemma_join_front(l, rest.drop_last());
        assert(join_lines(all) =~= l + seq!['\n'] + join_lines(rest));
    }
}

/// Reading the lines of joined text back gives the lines, when none holds a
/// line feed and the last one is empty.
pub proof fn lemma_text_lines_of_join(lines: Seq<Seq<char>>)
    requires
        lines.len() >= 1,
        lines.last().len() == 0,
        forall|i: int| 0 <= i < lines.len() - 1 ==> no_newline(#[trigger] lines[i]),
    ensures
        text_lines(join_lines(lines)) == lines.drop_last().map_values(|l: Seq<char>| strip_cr(l)),
    decreases lines.len(),
{
    if lines.len() == 1 {
        assert(join_lines(lines) == lines[0]);
        assert(lines.drop_last().map_values(|l: Seq<char>| strip_cr(l)) =~= Seq::<Seq<char>>::empty());
    } else {
        let rest = lines.skip(1);
        assert(lines =~= seq![lines[0]] + rest);
        lemma_join_front(lines[0], rest);
        assert(no_newline(lines[0]));
        assert forall|i: int| 0 <= i < rest.len() - 1 implies no_newline(#[trigger] rest[i]) by {
            assert(rest[i] == lines[i + 1]);
        }
        lemma_text_lines_of_join(rest);
        lemma_lines_first(lines[0], join_lines(rest));
        assert(lines.drop_last().map_values(|l: Seq<char>| strip_cr(l)) =~= seq![strip_cr(lines[0])]
            + rest.drop_last().map_values(|l: Seq<char>| strip_cr(l)));
    }
}

proof fn lemma_split_bar(x: Seq<char>, y: Seq<char>, n: nat)
    requires
        first_of(x, '|') == x.len(),
        n >= 2,
    ensures
        split_bars(x + seq!['|'] + y, n) == seq![x] + split_bars(y, (n - 1) as nat),
{
    let t = x + seq!['|'] + y;
    lemma_first_of_bounds(x, '|');
    lemma_first_of(t, '|', x.len() as int);
    assert(t.take(x.len() as int) =~= x);
    assert(t.skip(x.len() as int + 1) =~= y);
}

proof fn lemma_split_last(y: Seq<char>)
    ensures
        split_bars(y, 1) == seq![y],
{
}

proof fn lemma_apply_slot_line(m: Map<usize, BankLayoutView>, b: usize, j: nat, slot: BankSlot)
    requires
        one_line(slot.label@),
    ensures
        apply_line(m, strip_cr(slot_line(b as nat, j, slot))) == m.insert(
            b,
            BankLayoutView {
                slots: entry_or_default(m, b).slots.push(slot_record(slot)),
                remainder_label: entry_or_default(m, b).remainder_label,
            },
        ),
{
    reveal_strlit("slot|");
    reveal_strlit("free|");
    reveal_strlit("|");
    reveal_strlit("1");
    reveal_strlit("0");
    let bit = if slot.blank {
        "1"@
    } else {
        "0"@
    };
    let line = slot_line(b as nat, j, slot);
    let label = slot.label@;
    let bar = seq!['|'];
    let f0 = dec_digits(b as nat);
    let f1 = dec_digits(j);
    let f2 = dec_digits(slot.len as nat);
    assert(line =~= "slot|"@ + (f0 + bar + (f1 + bar + (f2 + bar + (bit + bar + label)))));
    assert(strip_cr(line) == line) by {
        if label.len() > 0 {
            assert(line.last() == label.last());
        } else {
            assert(line.last() == '|');
        }
    }
    assert(line.take(5) =~= "slot|"@);
    assert(line.skip(5) =~= f0 + bar + (f1 + bar + (f2 + bar + (bit + bar + label))));
    lemma_dec_digits_value(b as nat);
    lemma_dec_digits_value(j);
    lemma_dec_digits_value(slot.len as nat);
    lemma_first_of(bit, '|', 1);
    lemma_split_bar(f0, f1 + bar + (f2 + bar + (bit + bar + label)), 5);
    lemma_split_bar(f1, f2 + bar + (bit + bar + label), 4);
    lemma_split_bar(f2, bit + bar + label, 3);
    lemma_split_bar(bit, label, 2);
    lemma_split_last(label);
    let parts = split_bars(line.skip(5), 5);
    assert(parts =~= seq![f0, f1, f2, bit, label]);
    lemma_parse_dec(b);
    lemma_parse_dec(slot.len);
    assert((bit == "1"@) == slot.blank);
}

proof fn lemma_apply_free_line(m: Map<usize, BankLayoutView>, b: usize, rom: RomBank)
    requires
        one_line(rom.remainder_label@),
    ensures
        apply_line(m, strip_cr(free_line(b as nat, rom))) == m.insert(
            b,
            BankLayoutView { slots: entry_or_default(m, b).slots, remainder_label: rom.remainder_label@ },
        ),
{
    reveal_strlit("slot|");
    reveal_strlit("free|");
    reveal_strlit("|");
    let line = free_line(b as nat, rom);
    let label = rom.remainder_label@;
    let bar = seq!['|'];
    let f0 = dec_digits(b as nat);
    assert(line =~= "free|"@ + (f0 + bar + label));
    assert(strip_cr(line) == line) by {
        if label.len() > 0 {
            assert(line.last() == label.last());
        } else {
            assert(line.last() == '|');
        }
    }
    assert(line.take(5) =~= "free|"@);
    assert(!starts_with(line, "slot|"@)) by {
        assert(line.take(5)[0] == 'f');
    }
    assert(line.skip(5) =~= f0 + bar + label);
    lemma_dec_digits_value(b as nat);
    lemma_split_bar(f0, label, 2);
    lemma_split_last(label);
    assert(split_bars(line.skip(5), 2) =~= seq![f0, label]);
    lemma_parse_dec(b);
}

/// The first `j` slot lines of a bank record its first `j` slots.
proof fn lemma_slot_lines_prefix(m: Map<usize, BankLayoutView>, b: usize, rom: RomBank, j: nat)
    requires
        !m.contains_key(b),
        bank_text_fits_lines(rom),
        j <= rom.slots@.len(),
    ensures
        parse_onto(
            m,
            Seq::new(rom.slots@.len(), |k: int| slot_line(b as nat, k as nat, rom.slots@[k])).take(
                j as int,
            ).map_values(|l: Seq<char>| strip_cr(l)),
        ) == if j == 0 {
            m
        } else {
            m.insert(
                b,
                BankLayoutView {
                    slots: rom.slots@.take(j as int).map_values(|s: BankSlot| slot_record(s)),
                    remainder_label: Seq::empty(),
                },
            )
        },
    decreases j,
{
    let n = rom.slots@.len();
    let slot_lines = Seq::new(n, |k: int| slot_line(b as nat, k as nat, rom.slots@[k]));
    if j == 0 {
        assert(slot_lines.take(0).map_values(|l: Seq<char>| strip_cr(l)) =~= Seq::<Seq<char>>::empty());
    } else {
        let i = (j - 1) as nat;
        lemma_slot_lines_prefix(m, b, rom, i);
        let prev = slot_lines.take(i as int).map_values(|l: Seq<char>| strip_cr(l));
        let next = slot_lines.take(j as int).map_values(|l: Seq<char>| strip_cr(l));
        assert(next.drop_last() =~= prev);
        assert(next.last() == strip_cr(slot_line(b as nat, i, rom.slots@[i as int])));
        let pm = parse_onto(m, prev);
        assert(one_line(rom.slots@[i as int].label@));
        lemma_apply_slot_line(pm, b, i, rom.slots@[i as int]);
        assert(rom.slots@.take(j as int).map_values(|s: BankSlot| slot_record(s)) =~= rom.slots@.take(
            i as int,
        ).map_values(|s: BankSlot| slot_record(s)).push(slot_record(rom.slots@[i as int])));
        if i == 0 {
            assert(rom.slots@.take(0).map_values(|s: BankSlot| slot_record(s)) =~= Seq::<SlotSpecView>::empty());
        }
        assert(parse_onto(m, next) =~= m.insert(
            b,
            BankLayoutView {
                slots: rom.slots@.take(j as int).map_values(|s: BankSlot| slot_record(s)),
                remainder_label: Seq::empty(),
            },
        ));
    }
}

/// The sidecar lines of one populated bank record its layout.
proof fn lemma_bank_layout_lines(m: Map<usize, BankLayoutView>, b: usize, rom: RomBank)
    requires
        !m.contains_key(b),
        bank_text_fits_lines(rom),
    ensures
        parse_onto(m, rom_layout_lines(b as nat, rom).map_values(|l: Seq<char>| strip_cr(l))) == if has_layout_lines(
            rom,
        ) {
            m.insert(b, rom_record(rom))
        } else {
            m
        },
{
    let n = rom.slots@.len();
    let slot_lines = Seq::new(n, |k: int| slot_line(b as nat, k as nat, rom.slots@[k]));
    lemma_slot_lines_prefix(m, b, rom, n);
    assert(slot_lines.take(n as int) =~= slot_lines);
    assert(rom.slots@.take(n as int) =~= rom.slots@);
    let lines = rom_layout_lines(b as nat, rom);
    let mapped = lines.map_values(|l: Seq<char>| strip_cr(l));
    let after_slots = parse_onto(m, slot_lines.map_values(|l: Seq<char>| strip_cr(l)));
    if rom.spec_used() < rom.data@.len() {
        assert(mapped =~= slot_lines.map_values(|l: Seq<char>| strip_cr(l)).push(strip_cr(free_line(b as nat, rom))));
        assert(mapped.drop_last() =~= slot_lines.map_values(|l: Seq<char>| strip_cr(l)));
        lemma_apply_free_line(after_slots, b, rom);
        if n == 0 {
            assert(rom.slots@.map_values(|s: BankSlot| slot_record(s)) =~= Seq::<SlotSpecView>::empty());
        }
        assert(parse_onto(m, mapped) =~= m.insert(b, rom_record(rom)));
    } else {
        assert(mapped =~= slot_lines.map_values(|l: Seq<char>| strip_cr(l)));
        if n > 0 {
            assert(after_slots =~= m.insert(b, rom_record(rom)));
        }
    }
}

/// The sidecar lines of banks `0..n` record their layouts.
proof fn lemma_layout_lines_upto(banks: Seq<Option<RomBank>>, n: nat)
    requires
        n <= banks.len() <= usize::MAX,
        forall|b: int| 0 <= b < banks.len() && #[trigger] banks[b] is Some ==> bank_text_fits_lines(banks[b]->Some_0),
    ensures
        parse_onto(Map::empty(), layout_lines_upto(banks, n).map_values(|l: Seq<char>| strip_cr(l)))
            == recorded_layouts_upto(banks, n),
    decreases n,
{
    if n == 0 {
        assert(layout_lines_upto(banks, 0).map_values(|l: Seq<char>| strip_cr(l)) =~= Seq::<Seq<char>>::empty());
        assert(recorded_layouts_upto(banks, 0) =~= Map::<usize, BankLayoutView>::empty());
    } else {
        lemma_layout_lines_upto(banks, (n - 1) as nat);
        let before = layout_lines_upto(banks, (n - 1) as nat);
        let b = (n - 1) as usize;
        let prev_map = recorded_layouts_upto(banks, (n - 1) as nat);
        match banks[b as int] {
            Some(rom) => {
                let extra = rom_layout_lines(b as nat, rom);
                assert(layout_lines_upto(banks, n) == before + extra);
                assert((before + extra).map_values(|l: Seq<char>| strip_cr(l)) =~= before.map_values(
                    |l: Seq<char>| strip_cr(l),
                ) + extra.map_values(|l: Seq<char>| strip_cr(l)));
                lemma_parse_onto_append(
                    Map::empty(),
                    before.map_values(|l: Seq<char>| strip_cr(l)),
                    extra.map_values(|l: Seq<char>| strip_cr(l)),
                );
                assert(bank_text_fits_lines(rom));
                lemma_bank_layout_lines(prev_map, b, rom);
                assert(recorded_layouts_upto(banks, n) =~= if has_layout_lines(rom) {
                    prev_map.insert(b, rom_record(rom))
                } else {
                    prev_map
                });
            },
            None => {
                assert(layout_lines_upto(banks, n) =~= before);
                assert(recorded_layouts_upto(banks, n) =~= prev_map);
            },
        }
    }
}

proof fn lemma_dec_no_newline(n: nat)
    ensures
        no_newline(dec_digits(n)),
        dec_digits(n).len() > 0,
{
    lemma_dec_digits_value(n);
    let d = dec_digits(n);
    assert forall|i: int| 0 <= i < d.len() implies d[i] != '\n' by {
        assert(crate::sidecar::is_digit(d[i]));
        assert('\n' as u32 == 10);
    }
}

proof fn lemma_hex_digits_no_newline(n: nat)
    ensures
        no_newline(hex_digits(n)),
    decreases n,
{
    if n >= 16 {
        lemma_hex_digits_no_newline(n / 16);
        assert(digit_char(n % 16) as u32 >= 48);
    } else {
        assert(digit_char(n) as u32 >= 48);
    }
}

proof fn lemma_hex_no_newline(n: nat, width: nat)
    ensures
        no_newline(hex_width(n, width)),
{
    lemma_hex_digits_no_newline(n);
}

/// The text of an image that the sidecar must carry unchanged: no field of
/// a summary line holds a line feed, and no label ends with a carriage return.
pub open spec fn image_text_fits_lines(image: ProjectImage, binary_name: Seq<char>) -> bool {
    &&& no_newline(binary_name)
    &&& no_newline(image.chip.id@)
    &&& no_newline(image.chip.name@)
    &&& no_newline(image.layout.id@)
    &&& no_newline(image.layout.name@)
    &&& forall|b: int|
        0 <= b < image.banks@.len() && #[trigger] image.banks@[b] is Some ==> bank_text_fits_lines(
            image.banks@[b]->Some_0,
        )
}

proof fn lemma_slot_line_no_newline(b: nat, j: nat, slot: BankSlot)
    requires
        one_line(slot.label@),
    ensures
        no_newline(slot_line(b, j, slot)),
{
    reveal_strlit("slot|");
    reveal_strlit("|");
    reveal_strlit("1");
    reveal_strlit("0");
    lemma_dec_no_newline(b);
    lemma_dec_no_newline(j);
    lemma_dec_no_newline(slot.len as nat);
}

proof fn lemma_rom_lines_no_newline(b: nat, rom: RomBank)
    requires
        bank_text_fits_lines(rom),
    ensures
        forall|i: int| 0 <= i < rom_layout_lines(b, rom).len() ==> no_newline(#[trigger] rom_layout_lines(b, rom)[i]),
{
    reveal_strlit("free|");
    reveal_strlit("|");
    lemma_dec_no_newline(b);
    assert forall|i: int| 0 <= i < rom_layout_lines(b, rom).len() implies no_newline(
        #[trigger] rom_layout_lines(b, rom)[i],
    ) by {
        if i < rom.slots@.len() {
            assert(one_line(rom.slots@[i].label@));
            lemma_slot_line_no_newline(b, i as nat, rom.slots@[i]);
        }
    }
}

proof fn lemma_layout_lines_no_newline(banks: Seq<Option<RomBank>>, n: nat)
    requires
        n <= banks.len(),
        forall|b: int| 0 <= b < banks.len() && #[trigger] banks[b] is Some ==> bank_text_fits_lines(banks[b]->Some_0),
    ensures
        forall|i: int|
            0 <= i < layout_lines_upto(banks, n).len() ==> no_newline(#[trigger] layout_lines_upto(banks, n)[i]),
    decreases n,
{
    if n > 0 {
        lemma_layout_lines_no_newline(banks, (n - 1) as nat);
        let before = layout_lines_upto(banks, (n - 1) as nat);
        match banks[n - 1] {
            Some(rom) => {
                assert(bank_text_fits_lines(rom));
                lemma_rom_lines_no_newline((n - 1) as nat, rom);
                let extra = rom_layout_lines((n - 1) as nat, rom);
                assert forall|i: int|
                    0 <= i < layout_lines_upto(banks, n).len() implies no_newline(
                    #[trigger] layout_lines_upto(banks, n)[i],
                ) by {
                    if i >= before.len() {
                        assert(layout_lines_upto(banks, n)[i] == extra[i - before.len()]);
                    } else {
                        assert(layout_lines_upto(banks, n)[i] == before[i]);
                    }
                }
            },
            None => {},
        }
    }
}

proof fn lemma_header_lines(image: ProjectImage, binary_name: Seq<char>)
    requires
        image_text_fits_lines(image, binary_name),
    ensures
        forall|i: int|
            0 <= i < header_lines(image, binary_name).len() ==> no_newline(
                #[trigger] header_lines(image, binary_name)[i],
            ) && inert(header_lines(image, binary_name)[i]),
{
    reveal_strlit("ROM Builder metadata");
    reveal_strlit("Binary: ");
    reveal_strlit("Chip: ");
    reveal_strlit(" (");
    reveal_strlit(")");
    reveal_strlit("Layout: ");
    reveal_strlit("ROM unit size: ");
    reveal_strlit(" bytes");
    reveal_strlit("Chip capacity: ");
    reveal_strlit("Padding byte: 0x");
    reveal_strlit("Populated banks: ");
    reveal_strlit("Banks:");
    lemma_dec_no_newline(image.layout.unit_size as nat);
    lemma_dec_no_newline(image.chip.capacity as nat);
    lemma_dec_no_newline(count_some(image.banks@));
    lemma_hex_no_newline(image.pad_byte as nat, 2);
}

proof fn lemma_bank_summary_line(image: ProjectImage, b: nat)
    requires
        b < image.banks@.len(),
        image.banks@[b as int] is Some ==> bank_text_fits_lines(image.banks@[b as int]->Some_0),
    ensures
        no_newline(bank_line(image, b)),
        inert(bank_line(image, b)),
{
    reveal_strlit("- bank ");
    reveal_strlit(": ");
    reveal_strlit(" | 0x");
    reveal_strlit("-0x");
    reveal_strlit(" | checksum ");
    reveal_strlit(" | source: ");
    reveal_strlit("imported from merged image");
    reveal_strlit(": unused | 0x");
    let unit = image.layout.unit_size as nat;
    let start = b * unit;
    let end = (start + unit - 1) as nat;
    lemma_dec_no_newline(b);
    lemma_hex_no_newline(start, 5);
    lemma_hex_no_newline(end, 5);
    match image.banks@[b as int] {
        Some(rom) => {
            lemma_hex_no_newline(crate::bank::checksum(rom.data@) as nat, 4);
            if rom.slots@.len() > 0 {
                assert(one_line(rom.slots@[0].label@));
            }
            assert(no_newline(primary_label_of(rom)));
            assert(no_newline(source_text(rom)));
        },
        None => {},
    }
}

proof fn lemma_remainder_lines(image: ProjectImage)
    ensures
        forall|i: int|
            0 <= i < remainder_lines(image).len() ==> no_newline(#[trigger] remainder_lines(image)[i]) && inert(
                remainder_lines(image)[i],
            ),
{
    reveal_strlit("Unused remainder: 0x");
    reveal_strlit("-0x");
    reveal_strlit(" (");
    reveal_strlit(" bytes)");
    let start = (image.spec_bank_count() * image.layout.unit_size) as nat;
    lemma_hex_no_newline(start, 5);
    lemma_hex_no_newline((image.chip.capacity - 1) as nat, 5);
    lemma_dec_no_newline(image.chip.spec_remainder(image.layout));
}

/// The summary lines above the machine-readable part hold no line feed and
/// none of them starts like a sidecar record.
proof fn lemma_summary_lines(image: ProjectImage, binary_name: Seq<char>)
    requires
        image_text_fits_lines(image, binary_name),
    ensures
        ({
            let human = header_lines(image, binary_name) + Seq::new(
                image.banks@.len(),
                |b: int| bank_line(image, b as nat),
            ) + remainder_lines(image) + seq![Seq::empty(), "Slot layout (for re-import, do not edit):"@];
            forall|i: int| 0 <= i < human.len() ==> no_newline(#[trigger] human[i]) && inert(human[i])
        }),
{
    reveal_strlit("Slot layout (for re-import, do not edit):");
    let h = header_lines(image, binary_name);
    let bl = Seq::new(image.banks@.len(), |b: int| bank_line(image, b as nat));
    let rl = remainder_lines(image);
    let fx = seq![Seq::<char>::empty(), "Slot layout (for re-import, do not edit):"@];
    let human = h + bl + rl + fx;
    lemma_header_lines(image, binary_name);
    lemma_remainder_lines(image);
    assert forall|i: int| 0 <= i < human.len() implies no_newline(#[trigger] human[i]) && inert(human[i]) by {
        if i < h.len() {
            assert(human[i] == h[i]);
        } else if i < h.len() + bl.len() {
            assert(human[i] == bl[i - h.len()]);
            let b = i - h.len();
            if image.banks@[b] is Some {
                assert(bank_text_fits_lines(image.banks@[b]->Some_0));
            }
            lemma_bank_summary_line(image, b as nat);
        } else if i < h.len() + bl.len() + rl.len() {
            assert(human[i] == rl[i - h.len() - bl.len()]);
        } else {
            assert(human[i] == fx[i - h.len() - bl.len() - rl.len()]);
        }
    }
}

/// Reading the slot layout back from the metadata summary of an image gives
/// the slot layout of every populated bank: each slot's length, label and
/// blank flag in order, and the name of its free space when it has any.
pub proof fn lemma_sidecar_round_trip(image: ProjectImage, binary_name: Seq<char>)
    requires
        image.banks@.len() <= usize::MAX,
        image_text_fits_lines(image, binary_name),
    ensures
        parse_layout_text(join_lines(metadata_lines(image, binary_name))) == recorded_layouts(image.banks@),
{
    let banks = image.banks@;
    let h = header_lines(image, binary_name);
    let bl = Seq::new(banks.len(), |b: int| bank_line(image, b as nat));
    let rl = remainder_lines(image);
    let fx = seq![Seq::<char>::empty(), "Slot layout (for re-import, do not edit):"@];
    let ll = layout_lines_upto(banks, banks.len());
    let human = h + bl + rl + fx;
    let all = metadata_lines(image, binary_name);
    assert(all =~= human + ll + seq![Seq::<char>::empty()]);
    lemma_summary_lines(image, binary_name);
    lemma_layout_lines_no_newline(banks, banks.len());
    assert forall|i: int| 0 <= i < all.len() - 1 implies no_newline(#[trigger] all[i]) by {
        if i < human.len() {
            assert(all[i] == human[i]);
        } else {
            assert(all[i] == ll[i - human.len()]);
        }
    }
    lemma_text_lines_of_join(all);
    assert(all.drop_last() =~= human + ll);
    let strip = |l: Seq<char>| strip_cr(l);
    assert((human + ll).map_values(strip) =~= human.map_values(strip) + ll.map_values(strip));
    lemma_parse_lines_onto(all.drop_last().map_values(strip));
    lemma_parse_onto_append(Map::empty(), human.map_values(strip), ll.map_values(strip));
    lemma_inert_lines(Map::empty(), human);
    lemma_layout_lines_upto(banks, banks.len());
}

/// The bytes of bank `b` of an exported image are the bank's own bytes, or
/// padding where the bank is empty.
pub proof fn lemma_export_chunk(image: ProjectImage, b: int)
    requires
        image.layout.unit_size > 0,
        image.banks@.len() == image.spec_bank_count(),
        image.banks_sized(),
        0 <= b < image.spec_bank_count(),
    ensures
        bank_chunk(image.spec_export(), image.layout, b) == (if image.banks@[b] is Some {
            image.banks@[b]->Some_0.data@
        } else {
            Seq::new(image.layout.unit_size as nat, |k: int| image.pad_byte)
        }),
{
    let unit = image.layout.unit_size as int;
    lemma_bank_within_chip(b as nat, unit as nat, image.chip.capacity as nat);
    let chunk = bank_chunk(image.spec_export(), image.layout, b);
    assert forall|k: int| 0 <= k < unit implies chunk[k] == (if image.banks@[b] is Some {
        image.banks@[b]->Some_0.data@[k]
    } else {
        image.pad_byte
    }) by {
        lemma_offset_in_bank(b, k, unit);
        assert(chunk[k] == image.spec_export()[b * unit + k]);
    }
    if image.banks@[b] is Some {
        assert(chunk =~= image.banks@[b]->Some_0.data@);
    } else {
        assert(chunk =~= Seq::new(image.layout.unit_size as nat, |k: int| image.pad_byte));
    }
}

/// Slot specifications that record slots of the same lengths have the same total.
pub proof fn lemma_recorded_total(specs: Seq<SlotSpec>, slots: Seq<BankSlot>)
    requires
        specs.len() == slots.len(),
        forall|j: int| 0 <= j < specs.len() ==> (#[trigger] specs[j]).len == slots[j].len,
    ensures
        spec_total(specs) == slot_total(slots),
    decreases specs.len(),
{
    if specs.len() > 0 {
        lemma_recorded_total(specs.drop_last(), slots.drop_last());
    }
}

/// `after` is `before` as a re-import with its sidecar rebuilds it: the same
/// bytes, the same slots in order (length, name and blank flag) without a
/// source file, and the name of the free space when the bank has free space
/// with a name (else "Free"); an empty bank stays empty.
pub open spec fn restored_bank(after: Option<RomBank>, before: Option<RomBank>) -> bool {
    match before {
        None => after is None,
        Some(rom) => {
            &&& after is Some
            &&& after->Some_0.data@ == rom.data@
            &&& after->Some_0.slots@.len() == rom.slots@.len()
            &&& forall|j: int|
                0 <= j < rom.slots@.len() ==> {
                    &&& (#[trigger] after->Some_0.slots@[j]).label@ == rom.slots@[j].label@
                    &&& after->Some_0.slots@[j].len == rom.slots@[j].len
                    &&& after->Some_0.slots@[j].blank == rom.slots@[j].blank
                    &&& after->Some_0.slots@[j].source_path is None
                }
            &&& after->Some_0.remainder_label@ == (if rom.spec_used() < rom.data@.len()
                && rom.remainder_label@.len() > 0 {
                rom.remainder_label@
            } else {
                free_label()
            })
        },
    }
}

/// Re-opening an exported image next to its metadata sidecar rebuilds it:
/// the import does not fail on the sidecar, every populated bank comes back
/// with its bytes and its slots, and the empty banks stay empty.
pub proof fn lemma_reimport_with_sidecar(
    image: ProjectImage,
    binary_name: Seq<char>,
    slot_layout: Map<usize, BankLayout>,
    imported: ProjectImage,
)
    requires
        image.layout.unit_size > 0,
        image.banks@.len() == image.spec_bank_count(),
        image.banks_sized(),
        image_text_fits_lines(image, binary_name),
        forall|b: int|
            0 <= b < image.banks@.len() && #[trigger] image.banks@[b] is Some ==> image.banks@[b]->Some_0.slots@.len()
                > 0 && image.banks@[b]->Some_0.fits(),
        layouts_view(slot_layout) == parse_layout_text(join_lines(metadata_lines(image, binary_name))),
        imported.banks@.len() == image.spec_bank_count(),
        forall|b: int|
            0 <= b < image.spec_bank_count() ==> #[trigger] imported_bank(
                imported.banks@[b],
                image.chip,
                image.layout,
                image.spec_export(),
                image.pad_byte,
                slot_layout,
                b,
            ),
    ensures
        forall|b: int|
            0 <= b < image.spec_bank_count() ==> !#[trigger] sidecar_overflows(slot_layout, image.layout, b),
        forall|b: int|
            0 <= b < image.spec_bank_count() ==> #[trigger] restored_bank(imported.banks@[b], image.banks@[b]),
{
    let banks = image.banks@;
    let unit = image.layout.unit_size;
    assert(image.spec_bank_count() <= image.chip.capacity) by {
        vstd::arithmetic::div_mod::lemma_div_is_ordered_by_denominator(image.chip.capacity as int, 1, unit as int);
    }
    lemma_sidecar_round_trip(image, binary_name);
    let recorded = recorded_layouts(banks);
    assert(layouts_view(slot_layout) == recorded);
    assert forall|b: int| 0 <= b < image.spec_bank_count() implies !#[trigger] sidecar_overflows(
        slot_layout,
        image.layout,
        b,
    ) && restored_bank(imported.banks@[b], banks[b]) by {
        let k = b as usize;
        assert(recorded.contains_key(k) == layouts_view(slot_layout).contains_key(k));
        lemma_export_chunk(image, b);
        if banks[b] is Some {
            let rom = banks[b]->Some_0;
            assert(has_layout_lines(rom));
            assert(recorded.contains_key(k));
            assert(slot_layout.contains_key(k));
            let entry = slot_layout[k];
            assert(layouts_view(slot_layout)[k] == entry@);
            assert(entry@ == rom_record(rom));
            assert(entry.slots@.map_values(|s: SlotSpec| s@) == rom.slots@.map_values(|s: BankSlot| slot_record(s)));
            assert forall|j: int| 0 <= j < entry.slots@.len() implies (#[trigger] entry.slots@[j]).len
                == rom.slots@[j].len && entry.slots@[j].label@ == rom.slots@[j].label@ && entry.slots@[j].blank
                == rom.slots@[j].blank by {
                assert(entry.slots@.map_values(|s: SlotSpec| s@)[j] == entry.slots@[j]@);
                assert(rom.slots@.map_values(|s: BankSlot| slot_record(s))[j] == slot_record(rom.slots@[j]));
            }
            lemma_recorded_total(entry.slots@, rom.slots@);
            assert(uses_sidecar(slot_layout, b));
            assert(imported_bank(imported.banks@[b], image.chip, image.layout, image.spec_export(), image.pad_byte, slot_layout, b));
            let after = imported.banks@[b]->Some_0;
            assert forall|j: int| 0 <= j < rom.slots@.len() implies {
                &&& (#[trigger] after.slots@[j]).label@ == rom.slots@[j].label@
                &&& after.slots@[j].len == rom.slots@[j].len
                &&& after.slots@[j].blank == rom.slots@[j].blank
                &&& after.slots@[j].source_path is None
            } by {
                assert(entry.slots@[j].len == rom.slots@[j].len);
            }
        } else {
            assert(!recorded.contains_key(k));
            assert(!uses_sidecar(slot_layout, b));
            assert(all_pad(bank_chunk(image.spec_export(), image.layout, b), image.pad_byte));
            assert(imported_bank(imported.banks@[b], image.chip, image.layout, image.spec_export(), image.pad_byte, slot_layout, b));
        }
    }
    assert forall|b: int| 0 <= b < image.spec_bank_count() implies #[trigger] restored_bank(
        imported.banks@[b],
        image.banks@[b],
    ) by {
        assert(!sidecar_overflows(slot_layout, image.layout, b));
    }
}

/// No id or name in the catalogs holds a line feed.
pub proof fn lemma_catalog_one_line()
    ensures
        forall|i: int|
            0 <= i < chip_table().len() ==> no_newline((#[trigger] chip_table()[i]).id@) && no_newline(
                chip_table()[i].name@,
            ),
        forall|i: int|
            0 <= i < layout_table().len() ==> no_newline((#[trigger] layout_table()[i]).id@) && no_newline(
                layout_table()[i].name@,
            ),
{
    reveal_strlit("zx-spectrum-16k");
    reveal_strlit("ZX Spectrum 16K");
    reveal_strlit("sinclair-ql-48k");
    reveal_strlit("Sinclair QL 48K");
    reveal_strlit("zx80");
    reveal_strlit("ZX80 ROM");
    reveal_strlit("zx81");
    reveal_strlit("ZX81 ROM");
    reveal_strlit("zx-spectrum-128-rom0");
    reveal_strlit("ZX Spectrum 128 ROM 0");
    reveal_strlit("zx-spectrum-128-rom1");
    reveal_strlit("ZX Spectrum 128 ROM 1");
    reveal_strlit("zx-spectrum-plus3-rom0");
    reveal_strlit("ZX Spectrum +3 ROM 0");
    reveal_strlit("zx-spectrum-plus3-rom1");
    reveal_strlit("ZX Spectrum +3 ROM 1");
    reveal_strlit("zx-spectrum-plus3-rom2");
    reveal_strlit("ZX Spectrum +3 ROM 2");
    reveal_strlit("zx-spectrum-plus3-rom3");
    reveal_strlit("ZX Spectrum +3 ROM 3");
    reveal_strlit("jupiter-ace");
    reveal_strlit("Jupiter Ace ROM");
    reveal_strlit("cpc-464-os");
    reveal_strlit("CPC 464 OS");
    reveal_strlit("cpc-464-basic");
    reveal_strlit("CPC 464 BASIC");
    reveal_strlit("cpc-6128-os");
    reveal_strlit("CPC 6128 OS");
    reveal_strlit("cpc-6128-basic");
    reveal_strlit("CPC 6128 BASIC");
    reveal_strlit("cpc-6128-amsdos");
    reveal_strlit("CPC 6128 AMSDOS");
    reveal_strlit("bbc-micro-b-os");
    reveal_strlit("BBC Micro B OS");
    reveal_strlit("bbc-micro-b-basic");
    reveal_strlit("BBC Micro B BASIC");
    reveal_strlit("acorn-electron");
    reveal_strlit("Acorn Electron ROM");
    reveal_strlit("vic-20-basic");
    reveal_strlit("VIC-20 BASIC");
    reveal_strlit("vic-20-kernal");
    reveal_strlit("VIC-20 KERNAL");
    reveal_strlit("vic-20-char");
    reveal_strlit("VIC-20 Character");
    reveal_strlit("c64-basic");
    reveal_strlit("C64 BASIC");
    reveal_strlit("c64-kernal");
    reveal_strlit("C64 KERNAL");
    reveal_strlit("c64-char");
    reveal_strlit("C64 Character");
    reveal_strlit("cbm-plus4-basic");
    reveal_strlit("Plus/4 BASIC");
    reveal_strlit("cbm-plus4-kernal");
    reveal_strlit("Plus/4 KERNAL");
    reveal_strlit("atari-xl-xe-os");
    reveal_strlit("Atari XL/XE OS");
    reveal_strlit("atari-xl-xe-basic");
    reveal_strlit("Atari XL/XE BASIC");
    reveal_strlit("atari-400-800-basic");
    reveal_strlit("Atari 400/800 BASIC");
    reveal_strlit("apple-2-plus");
    reveal_strlit("Apple II+ ROM");
    reveal_strlit("apple-2e");
    reveal_strlit("Apple IIe ROM");
    reveal_strlit("msx1");
    reveal_strlit("MSX1 Main ROM");
    reveal_strlit("oric-atmos");
    reveal_strlit("Oric Atmos ROM");
    reveal_strlit("dragon-32");
    reveal_strlit("Dragon 32 ROM");
    reveal_strlit("trs80-coco-color");
    reveal_strlit("CoCo Color BASIC");
    reveal_strlit("trs80-coco-ext");
    reveal_strlit("CoCo Extended BASIC");
    reveal_strlit("trs80-model-1");
    reveal_strlit("TRS-80 Model I ROM");
    reveal_strlit("rom-64k");
    reveal_strlit("64 KiB ROM");
    reveal_strlit("rom-128k");
    reveal_strlit("128 KiB ROM");
    reveal_strlit("rom-256k");
    reveal_strlit("256 KiB ROM");
    reveal_strlit("rom-512k");
    reveal_strlit("512 KiB ROM");
    reveal_strlit("W27C512");
    reveal_strlit("W27C512 - 64 KiB");
    reveal_strlit("AM29F040B");
    reveal_strlit("AM29F040B - 512 KiB");
    reveal_strlit("SST39SF040");
    reveal_strlit("SST39SF040 - 512 KiB");
    reveal_strlit("2716");
    reveal_strlit("2716 - 2 KiB");
    reveal_strlit("2732");
    reveal_strlit("2732 - 4 KiB");
    reveal_strlit("2764");
    reveal_strlit("2764 - 8 KiB");
    reveal_strlit("27128");
    reveal_strlit("27128 - 16 KiB");
    reveal_strlit("27256");
    reveal_strlit("27256 - 32 KiB");
    reveal_strlit("27512");
    reveal_strlit("27512 - 64 KiB");
    reveal_strlit("27C010");
    reveal_strlit("27C010 - 128 KiB");
    reveal_strlit("27C020");
    reveal_strlit("27C020 - 256 KiB");
    reveal_strlit("27C040");
    reveal_strlit("27C040 - 512 KiB");
    reveal_strlit("27C080");
    reveal_strlit("27C080 - 1 MiB");
    reveal_strlit("W27C010");
    reveal_strlit("W27C010 - 128 KiB");
    reveal_strlit("W27C020");
    reveal_strlit("W27C020 - 256 KiB");
    reveal_strlit("W27C040");
    reveal_strlit("W27C040 - 512 KiB");
    reveal_strlit("28C16");
    reveal_strlit("28C16 - 2 KiB");
    reveal_strlit("28C64");
    reveal_strlit("28C64 - 8 KiB");
    reveal_strlit("AT28C256");
    reveal_strlit("AT28C256 - 32 KiB");
    reveal_strlit("AT28C010");
    reveal_strlit("AT28C010 - 128 KiB");
    reveal_strlit("SST39SF010");
    reveal_strlit("SST39SF010 - 128 KiB");
    reveal_strlit("SST39SF020");
    reveal_strlit("SST39SF020 - 256 KiB");
    reveal_strlit("Am29F010");
    reveal_strlit("Am29F010 - 128 KiB");
    reveal_strlit("Am29F032B");
    reveal_strlit("Am29F032B - 4 MiB");
    reveal_strlit("AT29C256");
    reveal_strlit("AT29C256 - 32 KiB");
    reveal_strlit("AT29C040");
    reveal_strlit("AT29C040 - 512 KiB");
}

/// For an image on a catalog chip with a catalog layout, reading the slot
/// layout back from its metadata summary gives the slot layout of every
/// populated bank, when no slot name, free-space name, source path or the
/// binary name holds a line feed and no name ends with a carriage return.
pub proof fn lemma_catalog_sidecar_round_trip(image: ProjectImage, binary_name: Seq<char>, c: int, l: int)
    requires
        image.banks@.len() <= usize::MAX,
        0 <= c < chip_table().len(),
        0 <= l < layout_table().len(),
        image.chip == chip_table()[c],
        image.layout == layout_table()[l],
        no_newline(binary_name),
        forall|b: int|
            0 <= b < image.banks@.len() && #[trigger] image.banks@[b] is Some ==> bank_text_fits_lines(
                image.banks@[b]->Some_0,
            ),
    ensures
        parse_layout_text(join_lines(metadata_lines(image, binary_name))) == recorded_layouts(image.banks@),
{
    lemma_catalog_one_line();
    assert(no_newline(chip_table()[c].id@));
    assert(no_newline(layout_table()[l].id@));
    lemma_sidecar_round_trip(image, binary_name);
}

} // verus!
