//! A whole chip image: the chip, the bank size, the pad byte and the banks,
//! with the export to a flat binary and the import back from one.
use vstd::prelude::*;
use crate::catalog::{Chip, RomLayout};
use crate::bank::{
    BankLayout, BankSlot, RemovePolicy, RomBank, checksum, free_label, layout_overflow_message,
    size_mismatch_message, spec_total, validate_rom_size,
};
use crate::text::{dec, hex_width, join_lines, join_with_newlines, push_dec, push_hex_width};
use std::collections::{HashMap, HashSet};

verus! {

#[derive(Clone, Debug)]
pub struct ProjectImage {
    pub chip: Chip,
    pub layout: RomLayout,
    pub pad_byte: u8,
    pub banks: Vec<Option<RomBank>>,
}

/// Number of populated entries.
pub open spec fn count_some(banks: Seq<Option<RomBank>>) -> nat
    decreases banks.len(),
{
    if banks.len() == 0 {
        0
    } else {
        count_some(banks.drop_last()) + if banks.last() is Some {
            1nat
        } else {
            0nat
        }
    }
}

/// `n` empty banks.
pub open spec fn empty_banks(n: nat) -> Seq<Option<RomBank>> {
    Seq::new(n, |i: int| None)
}

/// `banks` cut or grown (with empty banks) to length `n`.
pub open spec fn resized(banks: Seq<Option<RomBank>>, n: nat) -> Seq<Option<RomBank>> {
    if n <= banks.len() {
        banks.take(n as int)
    } else {
        banks + empty_banks((n - banks.len()) as nat)
    }
}

/// The entries of `banks` at positions `n..`.
pub open spec fn banks_from(banks: Seq<Option<RomBank>>, n: nat) -> Seq<Option<RomBank>> {
    if n <= banks.len() {
        banks.skip(n as int)
    } else {
        Seq::empty()
    }
}

/// Error text for a bank index past the last bank.
pub open spec fn bank_range_message(chip: Chip, layout: RomLayout, bank: nat) -> Seq<char> {
    let count = chip.spec_bank_count(layout);
    "Bank "@ + dec(bank) + " is outside the valid range 0.."@ + dec(
        if count == 0 {
            0nat
        } else {
            (count - 1) as nat
        },
    ) + " for "@ + chip.id@ + " using "@ + layout.name@
}

/// Error text for an image that has no empty bank left.
pub open spec fn no_empty_bank_message(chip: Chip) -> Seq<char> {
    "No empty banks remain for "@ + chip.id@
}

/// Error text for changing the bank size of an image that holds ROMs.
pub open spec fn layout_locked_message() -> Seq<char> {
    "Create a new image before changing layout size"@
}

/// The part of `data` that bank `b` of `layout` covers.
pub open spec fn bank_chunk(data: Seq<u8>, layout: RomLayout, b: int) -> Seq<u8> {
    data.subrange(b * layout.unit_size, b * layout.unit_size + layout.unit_size)
}

/// Label given to a bank imported from a merged image without a sidecar entry.
pub open spec fn imported_label(chip: Chip, b: nat) -> Seq<char> {
    chip.id@ + " bank "@ + dec(b)
}

/// Whether the sidecar gives a slot layout for bank `b`.
pub open spec fn uses_sidecar(slot_layout: Map<usize, BankLayout>, b: int) -> bool {
    &&& 0 <= b <= usize::MAX
    &&& slot_layout.contains_key(b as usize)
    &&& slot_layout[b as usize].slots@.len() > 0
}

/// Whether the sidecar's slot layout for bank `b` is longer than a bank.
pub open spec fn sidecar_overflows(slot_layout: Map<usize, BankLayout>, layout: RomLayout, b: int) -> bool {
    uses_sidecar(slot_layout, b) && spec_total(slot_layout[b as usize].slots@) > layout.unit_size
}

/// Every byte of `bytes` is `pad`.
pub open spec fn all_pad(bytes: Seq<u8>, pad: u8) -> bool {
    forall|k: int| 0 <= k < bytes.len() ==> bytes[k] == pad
}

/// Bank `b` as an import of `data` builds it.
pub open spec fn imported_bank(
    bank: Option<RomBank>,
    chip: Chip,
    layout: RomLayout,
    data: Seq<u8>,
    pad: u8,
    slot_layout: Map<usize, BankLayout>,
    b: int,
) -> bool {
    let chunk = bank_chunk(data, layout, b);
    if uses_sidecar(slot_layout, b) {
        let entry = slot_layout[b as usize];
        &&& bank is Some
        &&& bank->Some_0.data@ == chunk
        &&& bank->Some_0.slots@.len() == entry.slots@.len()
        &&& forall|j: int|
            0 <= j < entry.slots@.len() ==> #[trigger] bank->Some_0.slots@[j] == (BankSlot {
                label: entry.slots@[j].label,
                source_path: None,
                len: entry.slots@[j].len,
                blank: entry.slots@[j].blank,
            })
        &&& bank->Some_0.remainder_label@ == if entry.remainder_label@.len() == 0 {
            free_label()
        } else {
            entry.remainder_label@
        }
    } else if all_pad(chunk, pad) {
        bank is None
    } else {
        &&& bank is Some
        &&& bank->Some_0.data@ == chunk
        &&& bank->Some_0.slots@.len() == 1
        &&& bank->Some_0.slots@[0].label@ == imported_label(chip, b as nat)
        &&& bank->Some_0.slots@[0].source_path is None
        &&& bank->Some_0.slots@[0].len == layout.unit_size
        &&& !bank->Some_0.slots@[0].blank
        &&& bank->Some_0.remainder_label@ == free_label()
    }
}

/// Whether bytes past the last whole bank hold anything but padding.
pub open spec fn tail_has_data(chip: Chip, layout: RomLayout, data: Seq<u8>, pad: u8) -> bool {
    let mapped = chip.spec_bank_count(layout) * layout.unit_size;
    &&& mapped < data.len()
    &&& exists|k: int| mapped <= k < data.len() && data[k] != pad
}

/// Warning text for data past the last whole bank.
pub open spec fn tail_warning(chip: Chip, layout: RomLayout, len: nat) -> Seq<char> {
    let mapped = (chip.spec_bank_count(layout) * layout.unit_size) as nat;
    dec((len - mapped) as nat) + " trailing byte(s) at 0x"@ + hex_width(mapped, 5) + "-0x"@ + hex_width(
        (len - 1) as nat,
        5,
    ) + " fall beyond the last full "@ + layout.name@
        + " bank and were not imported; they will be padded on export."@
}

/// Error text for an image whose size is not the chip's capacity.
pub open spec fn image_size_message(chip: Chip, len: nat) -> Seq<char> {
    "image is "@ + dec(len) + " bytes, but "@ + chip.id@ + " requires "@ + dec(chip.capacity as nat)
        + " bytes"@
}

/// The sidecar's slot layouts for banks of the grid fit the address space.
pub open spec fn sidecar_totals_bounded(slot_layout: Map<usize, BankLayout>, count: nat) -> bool {
    forall|b: int|
        0 <= b < count && #[trigger] uses_sidecar(slot_layout, b) ==> spec_total(slot_layout[b as usize].slots@)
            <= usize::MAX
}

/// Checksums of the first `n` slots of `rom`, skipping blank ones.
pub open spec fn rom_sums_upto(rom: RomBank, n: nat) -> Seq<u16>
    decreases n,
{
    if n == 0 {
        Seq::empty()
    } else {
        rom_sums_upto(rom, (n - 1) as nat) + if rom.slots@[n - 1].blank {
            Seq::empty()
        } else {
            seq![checksum(rom.spec_slot_bytes(n - 1))]
        }
    }
}

/// Checksums of the non-blank slots of `rom`, in slot order.
pub open spec fn rom_sums(rom: RomBank) -> Seq<u16> {
    rom_sums_upto(rom, rom.slots@.len())
}

/// Checksums of the non-blank slots of all populated banks, in bank order.
pub open spec fn image_sums(banks: Seq<Option<RomBank>>) -> Seq<u16>
    decreases banks.len(),
{
    if banks.len() == 0 {
        Seq::empty()
    } else {
        image_sums(banks.drop_last()) + match banks.last() {
            Some(rom) => rom_sums(rom),
            None => Seq::empty(),
        }
    }
}

/// Values that occur at two different positions of `sums`.
pub open spec fn shared_values(sums: Seq<u16>) -> Set<u16> {
    Set::new(|c: u16| exists|i: int, j: int| 0 <= i < j < sums.len() && sums[i] == c && sums[j] == c)
}

/// The first lines of the metadata summary.
pub open spec fn header_lines(image: ProjectImage, binary_name: Seq<char>) -> Seq<Seq<char>> {
    seq![
        "ROM Builder metadata"@,
        "Binary: "@ + binary_name,
        "Chip: "@ + image.chip.id@ + " ("@ + image.chip.name@ + ")"@,
        "Layout: "@ + image.layout.name@ + " ("@ + image.layout.id@ + ")"@,
        "ROM unit size: "@ + dec(image.layout.unit_size as nat) + " bytes"@,
        "Chip capacity: "@ + dec(image.chip.capacity as nat) + " bytes"@,
        "Padding byte: 0x"@ + hex_width(image.pad_byte as nat, 2),
        "Populated banks: "@ + dec(count_some(image.banks@)),
        "Banks:"@,
    ]
}

/// The label of a bank's first slot, or nothing.
pub open spec fn primary_label_of(rom: RomBank) -> Seq<char> {
    if rom.slots@.len() > 0 {
        rom.slots@[0].label@
    } else {
        Seq::empty()
    }
}

/// Where a bank's first slot came from, as shown in the summary.
pub open spec fn source_text(rom: RomBank) -> Seq<char> {
    if rom.slots@.len() > 0 && rom.slots@[0].source_path is Some {
        rom.slots@[0].source_path->Some_0@
    } else {
        "imported from merged image"@
    }
}

/// The summary line of bank `b`.
pub open spec fn bank_line(image: ProjectImage, b: nat) -> Seq<char> {
    let unit = image.layout.unit_size as nat;
    let start = b * unit;
    let end = (start + unit - 1) as nat;
    match image.banks@[b as int] {
        Some(rom) => "- bank "@ + dec(b) + ": "@ + primary_label_of(rom) + " | 0x"@ + hex_width(start, 5) + "-0x"@
            + hex_width(end, 5) + " | checksum "@ + hex_width(checksum(rom.data@) as nat, 4) + " | source: "@
            + source_text(rom),
        None => "- bank "@ + dec(b) + ": unused | 0x"@ + hex_width(start, 5) + "-0x"@ + hex_width(end, 5),
    }
}

/// The line describing bytes past the last whole bank, when there are any.
pub open spec fn remainder_lines(image: ProjectImage) -> Seq<Seq<char>> {
    let rest = image.chip.spec_remainder(image.layout);
    if rest > 0 {
        let start = (image.spec_bank_count() * image.layout.unit_size) as nat;
        seq![
            "Unused remainder: 0x"@ + hex_width(start, 5) + "-0x"@ + hex_width((image.chip.capacity - 1) as nat, 5)
                + " ("@ + dec(rest) + " bytes)"@,
        ]
    } else {
        Seq::empty()
    }
}

/// The machine-readable line of slot `j` of bank `b`.
pub open spec fn slot_line(b: nat, j: nat, slot: BankSlot) -> Seq<char> {
    "slot|"@ + dec(b) + "|"@ + dec(j) + "|"@ + dec(slot.len as nat) + "|"@ + (if slot.blank {
        "1"@
    } else {
        "0"@
    }) + "|"@ + slot.label@
}

/// The machine-readable line naming the free space of bank `b`.
pub open spec fn free_line(b: nat, rom: RomBank) -> Seq<char> {
    "free|"@ + dec(b) + "|"@ + rom.remainder_label@
}

/// The machine-readable lines of one populated bank.
pub open spec fn rom_layout_lines(b: nat, rom: RomBank) -> Seq<Seq<char>> {
    Seq::new(rom.slots@.len(), |j: int| slot_line(b, j as nat, rom.slots@[j])) + if rom.spec_used()
        < rom.data@.len() {
        seq![free_line(b, rom)]
    } else {
        Seq::empty()
    }
}

/// The machine-readable lines of the first `n` banks.
pub open spec fn layout_lines_upto(banks: Seq<Option<RomBank>>, n: nat) -> Seq<Seq<char>>
    decreases n,
{
    if n == 0 {
        Seq::empty()
    } else {
        layout_lines_upto(banks, (n - 1) as nat) + match banks[n - 1] {
            Some(rom) => rom_layout_lines((n - 1) as nat, rom),
            None => Seq::empty(),
        }
    }
}

/// Every line of the metadata summary of `image`.
pub open spec fn metadata_lines(image: ProjectImage, binary_name: Seq<char>) -> Seq<Seq<char>> {
    header_lines(image, binary_name) + Seq::new(image.banks@.len(), |b: int| bank_line(image, b as nat))
        + remainder_lines(image) + seq![Seq::empty(), "Slot layout (for re-import, do not edit):"@]
        + layout_lines_upto(image.banks@, image.banks@.len()) + seq![Seq::empty()]
}

/// Views of a pushed vector of strings.
pub proof fn lemma_push_views(v: Seq<String>, s: String)
    ensures
        v.push(s).map_values(|l: String| l@) == v.map_values(|l: String| l@).push(s@),
{
    assert(v.push(s).map_values(|l: String| l@) =~= v.map_values(|l: String| l@).push(s@));
}

pub proof fn lemma_count_some_step(banks: Seq<Option<RomBank>>, i: int)
    requires
        0 <= i < banks.len(),
    ensures
        count_some(banks.take(i + 1)) == count_some(banks.take(i)) + if banks[i] is Some {
            1nat
        } else {
            0nat
        },
{
    assert(banks.take(i + 1).drop_last() =~= banks.take(i));
}

pub proof fn lemma_count_some_append(a: Seq<Option<RomBank>>, b: Seq<Option<RomBank>>)
    ensures
        count_some(a + b) == count_some(a) + count_some(b),
    decreases b.len(),
{
    if b.len() == 0 {
        assert(a + b =~= a);
    } else {
        assert((a + b).drop_last() =~= a + b.drop_last());
        lemma_count_some_append(a, b.drop_last());
    }
}

pub proof fn lemma_count_some_zero(banks: Seq<Option<RomBank>>)
    ensures
        count_some(banks) == 0 <==> (forall|i: int| 0 <= i < banks.len() ==> banks[i] is None),
    decreases banks.len(),
{
    if banks.len() > 0 {
        lemma_count_some_zero(banks.drop_last());
        if count_some(banks) == 0 {
            assert forall|i: int| 0 <= i < banks.len() implies banks[i] is None by {
                if i < banks.len() - 1 {
                    assert(banks.drop_last()[i] == banks[i]);
                }
            }
        }
        if forall|i: int| 0 <= i < banks.len() ==> banks[i] is None {
            assert forall|i: int| 0 <= i < banks.drop_last().len() implies banks.drop_last()[i] is None by {
                assert(banks.drop_last()[i] == banks[i]);
            }
        }
    }
}

/// `(b * unit + j) / unit == b` and `(b * unit + j) % unit == j` for `j < unit`.
pub proof fn lemma_offset_in_bank(b: int, j: int, unit: int)
    requires
        unit > 0,
        0 <= j < unit,
    ensures
        (b * unit + j) / unit == b,
        (b * unit + j) % unit == j,
{
    vstd::arithmetic::div_mod::lemma_fundamental_div_mod_converse(b * unit + j, unit, b, j);
}

/// A position lies in the bank `p / unit`, at offset `p % unit`.
pub proof fn lemma_position_split(p: int, unit: int)
    requires
        unit > 0,
        p >= 0,
    ensures
        (p / unit) * unit <= p < (p / unit) * unit + unit,
        p == (p / unit) * unit + p % unit,
        p / unit >= 0,
{
    vstd::arithmetic::div_mod::lemma_fundamental_div_mod(p, unit);
    vstd::arithmetic::div_mod::lemma_mod_pos_bound(p, unit);
    vstd::arithmetic::mul::lemma_mul_is_commutative(unit, p / unit);
    vstd::arithmetic::div_mod::lemma_div_pos_is_pos(p, unit);
}

/// Which bank a position falls in, compared with bank `b`.
pub proof fn lemma_bank_of(p: int, b: int, unit: int)
    requires
        unit > 0,
        p >= 0,
        b >= 0,
    ensures
        (b * unit <= p < b * unit + unit) <==> p / unit == b,
        p < b * unit ==> p / unit < b,
        p >= b * unit + unit ==> p / unit > b,
{
    lemma_position_split(p, unit);
    let q = p / unit;
    if q < b {
        vstd::arithmetic::mul::lemma_mul_inequality(q + 1, b, unit);
        vstd::arithmetic::mul::lemma_mul_is_distributive_add(unit, q, 1);
        vstd::arithmetic::mul::lemma_mul_is_commutative(unit, q);
        vstd::arithmetic::mul::lemma_mul_is_commutative(unit, q + 1);
    } else if q > b {
        vstd::arithmetic::mul::lemma_mul_inequality(b + 1, q, unit);
        vstd::arithmetic::mul::lemma_mul_is_distributive_add(unit, b, 1);
        vstd::arithmetic::mul::lemma_mul_is_commutative(unit, b);
        vstd::arithmetic::mul::lemma_mul_is_commutative(unit, b + 1);
    }
}

/// Checks that `bank` is a bank of `chip` under `layout`.
pub fn validate_bank(chip: Chip, layout: RomLayout, bank: usize) -> (result: Result<(), String>)
    requires
        layout.unit_size > 0,
    ensures
        result is Ok <==> bank < chip.spec_bank_count(layout),
        result matches Err(e) ==> e@ == bank_range_message(chip, layout, bank as nat),
{
    let count = chip.bank_count(layout);
    if bank < count {
        Ok(())
    } else {
        let mut e = String::from_str("Bank ");
        push_dec(&mut e, bank);
        e.append(" is outside the valid range 0..");
        push_dec(&mut e, count.saturating_sub(1));
        e.append(" for ");
        e.append(chip.id);
        e.append(" using ");
        e.append(layout.name);
        Err(e)
    }
}

impl ProjectImage {
    /// Number of banks the chip holds under the current layout.
    pub open spec fn spec_bank_count(self) -> nat {
        self.chip.spec_bank_count(self.layout)
    }

    /// Every populated bank inside the bank grid is exactly one unit long.
    pub open spec fn banks_sized(self) -> bool {
        forall|b: int|
            0 <= b < self.banks@.len() && b < self.spec_bank_count() && #[trigger] self.banks@[b] is Some
                ==> self.banks@[b]->Some_0.data@.len() == self.layout.unit_size
    }

    /// The byte at position `p` of the exported image.
    pub open spec fn export_byte(self, p: int) -> u8 {
        let unit = self.layout.unit_size as int;
        let b = p / unit;
        if b < self.spec_bank_count() && b < self.banks@.len() && self.banks@[b] is Some {
            self.banks@[b]->Some_0.data@[p % unit]
        } else {
            self.pad_byte
        }
    }

    /// The exported image: each populated bank at its offset, padding elsewhere.
    pub open spec fn spec_export(self) -> Seq<u8> {
        Seq::new(self.chip.capacity as nat, |p: int| self.export_byte(p))
    }

    /// An empty image for `chip` with banks of `layout`.
    pub fn new(chip: Chip, layout: RomLayout) -> (image: Self)
        requires
            layout.unit_size > 0,
        ensures
            image.chip == chip,
            image.layout == layout,
            image.pad_byte == chip.pad_byte,
            image.banks@ == empty_banks(chip.spec_bank_count(layout)),
    {
        let count = chip.bank_count(layout);
        let mut banks: Vec<Option<RomBank>> = Vec::new();
        while banks.len() < count
            invariant
                banks@.len() <= count,
                forall|i: int| 0 <= i < banks@.len() ==> banks@[i] is None,
            decreases count - banks@.len(),
        {
            banks.push(None);
        }
        assert(banks@ =~= empty_banks(count as nat));
        ProjectImage { chip, layout, pad_byte: chip.pad_byte, banks }
    }

    fn resize_banks(&mut self, count: usize)
        ensures
            final(self).banks@ == resized(old(self).banks@, count as nat),
            final(self).chip == old(self).chip,
            final(self).layout == old(self).layout,
            final(self).pad_byte == old(self).pad_byte,
    {
        if count <= self.banks.len() {
            self.banks.truncate(count);
        } else {
            let old_len = self.banks.len();
            while self.banks.len() < count
                invariant
                    old_len <= self.banks@.len() <= count,
                    old_len == old(self).banks@.len(),
                    self.banks@.take(old_len as int) == old(self).banks@,
                    forall|i: int| old_len <= i < self.banks@.len() ==> self.banks@[i] is None,
                    self.chip == old(self).chip,
                    self.layout == old(self).layout,
                    self.pad_byte == old(self).pad_byte,
                decreases count - self.banks@.len(),
            {
                self.banks.push(None);
                assert(self.banks@.take(old_len as int) =~= old(self).banks@);
            }
            assert(self.banks@ =~= resized(old(self).banks@, count as nat));
        }
    }

    /// Switches the target chip, growing or clipping the bank list to the new
    /// capacity. Banks beyond the new chip's bank count are dropped.
    pub fn set_chip(&mut self, chip: Chip)
        requires
            old(self).layout.unit_size > 0,
        ensures
            final(self).chip == chip,
            final(self).layout == old(self).layout,
            final(self).pad_byte == old(self).pad_byte,
            final(self).banks@ == resized(old(self).banks@, chip.spec_bank_count(old(self).layout)),
    {
        self.chip = chip;
        let count = chip.bank_count(self.layout);
        self.resize_banks(count);
    }

    /// Whether switching to `chip` would drop a populated bank (any populated
    /// bank sitting beyond the new chip's bank count, even with gaps before it).
    pub fn chip_change_drops_data(&self, chip: Chip) -> (drops: bool)
        requires
            self.layout.unit_size > 0,
        ensures
            drops == (exists|i: int|
                chip.spec_bank_count(self.layout) <= i < self.banks@.len() && #[trigger] self.banks@[i] is Some),
    {
        let new_count = chip.bank_count(self.layout);
        let mut i = new_count;
        while i < self.banks.len()
            invariant
                new_count == chip.spec_bank_count(self.layout),
                new_count <= i,
                forall|k: int| new_count <= k < i && k < self.banks@.len() ==> self.banks@[k] is None,
            decreases self.banks@.len() - i,
        {
            if self.banks[i].is_some() {
                return true;
            }
            i += 1;
        }
        false
    }

    /// Number of populated banks that would be dropped by switching to `chip`.
    pub fn dropped_bank_count(&self, chip: Chip) -> (dropped: usize)
        requires
            self.layout.unit_size > 0,
        ensures
            dropped == count_some(banks_from(self.banks@, chip.spec_bank_count(self.layout))),
    {
        let new_count = chip.bank_count(self.layout);
        if new_count >= self.banks.len() {
            assert(banks_from(self.banks@, new_count as nat) =~= Seq::<Option<RomBank>>::empty());
            return 0;
        }
        let ghost tail = self.banks@.skip(new_count as int);
        let mut dropped: usize = 0;
        let mut i = new_count;
        assert(tail.take(0) =~= Seq::<Option<RomBank>>::empty());
        while i < self.banks.len()
            invariant
                new_count <= i <= self.banks@.len(),
                tail == self.banks@.skip(new_count as int),
                dropped == count_some(tail.take(i - new_count)),
                dropped <= i - new_count,
            decreases self.banks@.len() - i,
        {
            proof {
                lemma_count_some_step(tail, i - new_count);
            }
            if self.banks[i].is_some() {
                dropped += 1;
            }
            i += 1;
        }
        assert(tail.take(tail.len() as int) =~= tail);
        dropped
    }

    /// Number of populated banks.
    pub fn populated_count(&self) -> (count: usize)
        ensures
            count == count_some(self.banks@),
    {
        let mut count: usize = 0;
        let mut i: usize = 0;
        assert(self.banks@.take(0) =~= Seq::<Option<RomBank>>::empty());
        while i < self.banks.len()
            invariant
                i <= self.banks@.len(),
                count == count_some(self.banks@.take(i as int)),
                count <= i,
            decreases self.banks@.len() - i,
        {
            proof {
                lemma_count_some_step(self.banks@, i as int);
            }
            if self.banks[i].is_some() {
                count += 1;
            }
            i += 1;
        }
        assert(self.banks@.take(self.banks@.len() as int) =~= self.banks@);
        count
    }

    /// Changes the bank size of an image that holds no ROM yet.
    pub fn change_layout(&mut self, layout: RomLayout) -> (result: Result<(), String>)
        requires
            layout.unit_size > 0,
        ensures
            result is Ok <==> count_some(old(self).banks@) == 0,
            match result {
                Ok(()) => {
                    &&& final(self).chip == old(self).chip
                    &&& final(self).layout == layout
                    &&& final(self).pad_byte == old(self).pad_byte
                    &&& final(self).banks@ == resized(old(self).banks@, old(self).chip.spec_bank_count(layout))
                },
                Err(e) => *final(self) == *old(self) && e@ == layout_locked_message(),
            },
    {
        if self.populated_count() > 0 {
            return Err(String::from_str("Create a new image before changing layout size"));
        }
        self.layout = layout;
        let count = self.chip.bank_count(layout);
        self.resize_banks(count);
        Ok(())
    }

    /// The first bank without a ROM.
    pub fn first_empty_bank(&self) -> (found: Option<usize>)
        ensures
            match found {
                Some(b) => b < self.banks@.len() && self.banks@[b as int] is None && forall|k: int|
                    0 <= k < b ==> self.banks@[k] is Some,
                None => forall|k: int| 0 <= k < self.banks@.len() ==> self.banks@[k] is Some,
            },
    {
        let mut i: usize = 0;
        while i < self.banks.len()
            invariant
                i <= self.banks@.len(),
                forall|k: int| 0 <= k < i ==> self.banks@[k] is Some,
            decreases self.banks@.len() - i,
        {
            if self.banks[i].is_none() {
                return Some(i);
            }
            i += 1;
        }
        None
    }

    /// Places a full-size ROM into bank `bank`.
    pub fn set_bank(&mut self, bank: usize, rom: RomBank) -> (result: Result<(), String>)
        requires
            old(self).layout.unit_size > 0,
            old(self).spec_bank_count() <= old(self).banks@.len(),
        ensures
            result is Ok <==> (bank < old(self).spec_bank_count() && rom.data@.len()
                == old(self).layout.unit_size),
            match result {
                Ok(()) => {
                    &&& final(self).banks@ == old(self).banks@.update(bank as int, Some(rom))
                    &&& final(self).chip == old(self).chip
                    &&& final(self).layout == old(self).layout
                    &&& final(self).pad_byte == old(self).pad_byte
                },
                Err(e) => {
                    &&& *final(self) == *old(self)
                    &&& bank >= old(self).spec_bank_count() ==> e@ == bank_range_message(
                        old(self).chip,
                        old(self).layout,
                        bank as nat,
                    )
                    &&& bank < old(self).spec_bank_count() ==> e@ == size_mismatch_message(
                        old(self).layout,
                        rom.data@.len(),
                    )
                },
            },
    {
        validate_bank(self.chip, self.layout, bank)?;
        validate_rom_size(self.layout, rom.data.as_slice())?;
        self.banks.set(bank, Some(rom));
        Ok(())
    }

    /// Places a full-size ROM into the first empty bank and returns that bank.
    pub fn add_rom(&mut self, rom: RomBank) -> (result: Result<usize, String>)
        requires
            old(self).layout.unit_size > 0,
            old(self).spec_bank_count() == old(self).banks@.len(),
        ensures
            match result {
                Ok(b) => {
                    &&& b < old(self).banks@.len()
                    &&& old(self).banks@[b as int] is None
                    &&& forall|k: int| 0 <= k < b ==> old(self).banks@[k] is Some
                    &&& rom.data@.len() == old(self).layout.unit_size
                    &&& final(self).banks@ == old(self).banks@.update(b as int, Some(rom))
                    &&& final(self).chip == old(self).chip
                    &&& final(self).layout == old(self).layout
                    &&& final(self).pad_byte == old(self).pad_byte
                },
                Err(e) => {
                    &&& *final(self) == *old(self)
                    &&& (forall|k: int| 0 <= k < old(self).banks@.len() ==> old(self).banks@[k] is Some)
                        ==> e@ == no_empty_bank_message(old(self).chip)
                    &&& (exists|k: int| 0 <= k < old(self).banks@.len() && old(self).banks@[k] is None)
                        ==> rom.data@.len() != old(self).layout.unit_size && e@ == size_mismatch_message(
                        old(self).layout,
                        rom.data@.len(),
                    )
                },
            },
    {
        let bank = match self.first_empty_bank() {
            Some(b) => b,
            None => {
                let mut e = String::from_str("No empty banks remain for ");
                e.append(self.chip.id);
                return Err(e);
            },
        };
        self.set_bank(bank, rom)?;
        Ok(bank)
    }

    /// Removes the ROM of bank `bank`: `Blank` leaves the bank empty, `Compact`
    /// moves the later banks down one place and leaves the last bank empty.
    pub fn remove_bank(&mut self, bank: usize, policy: RemovePolicy) -> (result: Result<(), String>)
        requires
            old(self).layout.unit_size > 0,
            old(self).spec_bank_count() <= old(self).banks@.len(),
        ensures
            result is Ok <==> bank < old(self).spec_bank_count(),
            final(self).chip == old(self).chip,
            final(self).layout == old(self).layout,
            final(self).pad_byte == old(self).pad_byte,
            match result {
                Ok(()) => final(self).banks@ == match policy {
                    RemovePolicy::Blank => old(self).banks@.update(bank as int, None),
                    RemovePolicy::Compact => old(self).banks@.remove(bank as int).push(None),
                },
                Err(e) => {
                    &&& final(self).banks == old(self).banks
                    &&& e@ == bank_range_message(old(self).chip, old(self).layout, bank as nat)
                },
            },
    {
        validate_bank(self.chip, self.layout, bank)?;
        match policy {
            RemovePolicy::Blank => {
                self.banks.set(bank, None);
            },
            RemovePolicy::Compact => {
                self.banks.remove(bank);
                self.banks.push(None);
            },
        }
        Ok(())
    }

    /// The chip-sized binary: every populated bank at its offset, the pad
    /// byte everywhere else.
    pub fn export_bytes(&self) -> (output: Vec<u8>)
        requires
            self.layout.unit_size > 0,
            self.banks_sized(),
        ensures
            output@ == self.spec_export(),
    {
        let unit = self.layout.unit_size;
        let capacity = self.chip.capacity;
        let mut output: Vec<u8> = Vec::new();
        while output.len() < capacity
            invariant
                output@.len() <= capacity,
                forall|p: int| 0 <= p < output@.len() ==> output@[p] == self.pad_byte,
            decreases capacity - output@.len(),
        {
            output.push(self.pad_byte);
        }
        let mut bank_index: usize = 0;
        while bank_index < self.banks.len()
            invariant
                unit == self.layout.unit_size,
                unit > 0,
                capacity == self.chip.capacity,
                self.banks_sized(),
                bank_index <= self.banks@.len(),
                output@.len() == capacity,
                forall|p: int|
                    0 <= p < capacity ==> #[trigger] output@[p] == if p / (unit as int) < bank_index {
                        self.export_byte(p)
                    } else {
                        self.pad_byte
                    },
            decreases self.banks@.len() - bank_index,
        {
            if let Some(rom) = &self.banks[bank_index] {
                if let Some(range) = self.chip.bank_range(self.layout, bank_index) {
                    let start = range.start;
                    let mut k: usize = 0;
                    while k < unit
                        invariant
                            unit == self.layout.unit_size,
                            unit > 0,
                            capacity == self.chip.capacity,
                            bank_index < self.banks@.len(),
                            bank_index < self.spec_bank_count(),
                            self.banks@[bank_index as int] == Some(*rom),
                            rom.data@.len() == unit,
                            start == bank_index * unit,
                            start + unit <= capacity,
                            k <= unit,
                            output@.len() == capacity,
                            forall|p: int|
                                0 <= p < capacity ==> #[trigger] output@[p] == if p / (unit as int) < bank_index {
                                    self.export_byte(p)
                                } else if start <= p < start + k {
                                    rom.data@[p - start]
                                } else {
                                    self.pad_byte
                                },
                        decreases unit - k,
                    {
                        output.set(start + k, rom.data[k]);
                        proof {
                            assert forall|p: int|
                                0 <= p < capacity implies #[trigger] output@[p] == if p / (unit as int)
                                < bank_index {
                                self.export_byte(p)
                            } else if start <= p < start + k + 1 {
                                rom.data@[p - start]
                            } else {
                                self.pad_byte
                            } by {
                                lemma_bank_of(p, bank_index as int, unit as int);
                            }
                        }
                        k += 1;
                    }
                    proof {
                        assert forall|p: int|
                            0 <= p < capacity implies #[trigger] output@[p] == if p / (unit as int) < bank_index
                            + 1 {
                            self.export_byte(p)
                        } else {
                            self.pad_byte
                        } by {
                            lemma_bank_of(p, bank_index as int, unit as int);
                            if p / (unit as int) == bank_index {
                                lemma_position_split(p, unit as int);
                            }
                        }
                    }
                }
            }
            bank_index += 1;
        }
        assert(output@ =~= self.spec_export());
        output
    }
    /// The slots of every populated bank fit inside their bank.
    pub open spec fn banks_fit(self) -> bool {
        forall|b: int| 0 <= b < self.banks@.len() && #[trigger] self.banks@[b] is Some ==> self.banks@[b]->Some_0.fits()
    }

    /// Re-divides the whole chip image into banks of a new layout size, splitting
    /// (or merging) the existing binary content. Per-bank names and sub-slots are
    /// not preserved; populated banks become a single slot of the new size.
    /// Bytes past the new layout's last whole bank fit in no bank and are
    /// padded on export.
    pub fn relayout(&mut self, layout: RomLayout)
        requires
            old(self).layout.unit_size > 0,
            layout.unit_size > 0,
            old(self).banks_sized(),
        ensures
            final(self).chip == old(self).chip,
            final(self).layout == layout,
            final(self).pad_byte == old(self).pad_byte,
            final(self).banks@.len() == old(self).chip.spec_bank_count(layout),
            forall|b: int|
                0 <= b < old(self).chip.spec_bank_count(layout) ==> #[trigger] imported_bank(
                    final(self).banks@[b],
                    old(self).chip,
                    layout,
                    old(self).spec_export(),
                    old(self).pad_byte,
                    Map::empty(),
                    b,
                ),
    {
        broadcast use vstd::std_specs::hash::group_hash_axioms;

        let bytes = self.export_bytes();
        let pad_byte = self.pad_byte;
        let no_sidecar: HashMap<usize, BankLayout> = HashMap::new();
        if let Ok((image, _warning)) = Self::import_bytes_with(
            self.chip,
            layout,
            bytes.as_slice(),
            pad_byte,
            &no_sidecar,
        ) {
            *self = image;
        } else {
            assert(forall|b: int| !#[trigger] sidecar_overflows(no_sidecar@, layout, b));
        }
    }

    /// Checksums shared by two or more populated slots across all banks (and
    /// their sub-slots). Blank slots are ignored. Used to flag duplicates.
    pub fn duplicate_checksums(&self) -> (duplicates: HashSet<u16>)
        requires
            self.banks_fit(),
        ensures
            duplicates@ == shared_values(image_sums(self.banks@)),
    {
        broadcast use vstd::std_specs::hash::group_hash_axioms;

        let mut sums: Vec<u16> = Vec::new();
        let mut b: usize = 0;
        assert(self.banks@.take(0) =~= Seq::<Option<RomBank>>::empty());
        while b < self.banks.len()
            invariant
                b <= self.banks@.len(),
                self.banks_fit(),
                sums@ == image_sums(self.banks@.take(b as int)),
            decreases self.banks@.len() - b,
        {
            assert(self.banks@.take(b + 1).drop_last() =~= self.banks@.take(b as int));
            if let Some(rom) = &self.banks[b] {
                assert(self.banks@[b as int] is Some);
                let ghost before = sums@;
                let mut index: usize = 0;
                while index < rom.slots.len()
                    invariant
                        index <= rom.slots@.len(),
                        rom.fits(),
                        sums@ == before + rom_sums_upto(*rom, index as nat),
                    decreases rom.slots@.len() - index,
                {
                    if !rom.slots[index].blank {
                        let sum = rom.slot_checksum16(index);
                        sums.push(sum);
                    }
                    index += 1;
                    assert(sums@ =~= before + rom_sums_upto(*rom, index as nat));
                }
            } else {
                assert(sums@ =~= image_sums(self.banks@.take(b + 1)));
            }
            b += 1;
        }
        assert(self.banks@.take(self.banks@.len() as int) =~= self.banks@);
        let mut duplicates: HashSet<u16> = HashSet::new();
        let n = sums.len();
        let mut i: usize = 0;
        while i < n
            invariant
                n == sums@.len(),
                i <= n,
                duplicates@ == Set::new(
                    |c: u16| exists|p: int, q: int| 0 <= p < q < n && p < i && sums@[p] == c && sums@[q] == c,
                ),
            decreases n - i,
        {
            let mut j = i + 1;
            while j < n
                invariant
                    n == sums@.len(),
                    i < n,
                    i + 1 <= j <= n,
                    duplicates@ == Set::new(
                        |c: u16|
                            exists|p: int, q: int|
                                0 <= p < q < n && (p < i || (p == i && q < j)) && sums@[p] == c && sums@[q] == c,
                    ),
                decreases n - j,
            {
                if sums[i] == sums[j] {
                    duplicates.insert(sums[i]);
                }
                j += 1;
                assert(duplicates@ =~= Set::new(
                    |c: u16|
                        exists|p: int, q: int|
                            0 <= p < q < n && (p < i || (p == i && q < j)) && sums@[p] == c && sums@[q] == c,
                ));
            }
            i += 1;
            assert(duplicates@ =~= Set::new(
                |c: u16| exists|p: int, q: int| 0 <= p < q < n && p < i && sums@[p] == c && sums@[q] == c,
            ));
        }
        assert(duplicates@ =~= shared_values(image_sums(self.banks@)));
        duplicates
    }

    /// Summary line of bank `b`.
    fn bank_summary_line(&self, b: usize) -> (line: String)
        requires
            self.layout.unit_size > 0,
            b < self.banks@.len(),
            b < self.spec_bank_count(),
        ensures
            line@ == bank_line(*self, b as nat),
    {
        proof {
            crate::catalog::lemma_bank_within_chip(b as nat, self.layout.unit_size as nat, self.chip.capacity as nat);
        }
        let start = b * self.layout.unit_size;
        let end = start + self.layout.unit_size;
        let mut line = String::from_str("- bank ");
        push_dec(&mut line, b);
        match &self.banks[b] {
            Some(rom) => {
                line.append(": ");
                line.append(rom.primary_label());
                line.append(" | 0x");
                push_hex_width(&mut line, start, 5);
                line.append("-0x");
                push_hex_width(&mut line, end - 1, 5);
                line.append(" | checksum ");
                let sum = rom.checksum16();
                push_hex_width(&mut line, sum as usize, 4);
                line.append(" | source: ");
                if rom.slots.len() > 0 {
                    match &rom.slots[0].source_path {
                        Some(path) => line.append(path.as_str()),
                        None => line.append("imported from merged image"),
                    }
                } else {
                    line.append("imported from merged image");
                }
            },
            None => {
                line.append(": unused | 0x");
                push_hex_width(&mut line, start, 5);
                line.append("-0x");
                push_hex_width(&mut line, end - 1, 5);
            },
        }
        line
    }

    /// The machine-readable lines of populated bank `b`.
    fn push_layout_lines(lines: &mut Vec<String>, b: usize, rom: &RomBank)
        requires
            rom.fits(),
        ensures
            final(lines)@.map_values(|l: String| l@) == old(lines)@.map_values(|l: String| l@) + rom_layout_lines(
                b as nat,
                *rom,
            ),
    {
        let ghost start_views = old(lines)@.map_values(|l: String| l@);
        let mut j: usize = 0;
        while j < rom.slots.len()
            invariant
                j <= rom.slots@.len(),
                lines@.map_values(|l: String| l@) == start_views + Seq::new(
                    j as nat,
                    |k: int| slot_line(b as nat, k as nat, rom.slots@[k]),
                ),
            decreases rom.slots@.len() - j,
        {
            let slot = &rom.slots[j];
            let mut line = String::from_str("slot|");
            push_dec(&mut line, b);
            line.append("|");
            push_dec(&mut line, j);
            line.append("|");
            push_dec(&mut line, slot.len);
            line.append("|");
            if slot.blank {
                line.append("1");
            } else {
                line.append("0");
            }
            line.append("|");
            line.append(slot.label.as_str());
            proof {
                lemma_push_views(lines@, line);
            }
            lines.push(line);
            j += 1;
            assert(lines@.map_values(|l: String| l@) =~= start_views + Seq::new(
                j as nat,
                |k: int| slot_line(b as nat, k as nat, rom.slots@[k]),
            ));
        }
        if rom.free() > 0 {
            let mut line = String::from_str("free|");
            push_dec(&mut line, b);
            line.append("|");
            line.append(rom.remainder_label.as_str());
            proof {
                lemma_push_views(lines@, line);
            }
            lines.push(line);
        }
        assert(lines@.map_values(|l: String| l@) =~= start_views + rom_layout_lines(b as nat, *rom));
    }

    /// A text summary of the image: chip, layout, every bank with its offsets
    /// and checksum, and a machine-readable slot layout for re-import.
    pub fn metadata_text(&self, binary_name: &str) -> (text: String)
        requires
            self.layout.unit_size > 0,
            self.banks@.len() <= self.spec_bank_count(),
            self.banks_fit(),
        ensures
            text@ == join_lines(metadata_lines(*self, binary_name@)),
    {
        let mut lines: Vec<String> = Vec::new();
        lines.push(String::from_str("ROM Builder metadata"));
        let mut line = String::from_str("Binary: ");
        line.append(binary_name);
        lines.push(line);
        let mut line = String::from_str("Chip: ");
        line.append(self.chip.id);
        line.append(" (");
        line.append(self.chip.name);
        line.append(")");
        lines.push(line);
        let mut line = String::from_str("Layout: ");
        line.append(self.layout.name);
        line.append(" (");
        line.append(self.layout.id);
        line.append(")");
        lines.push(line);
        let mut line = String::from_str("ROM unit size: ");
        push_dec(&mut line, self.layout.unit_size);
        line.append(" bytes");
        lines.push(line);
        let mut line = String::from_str("Chip capacity: ");
        push_dec(&mut line, self.chip.capacity);
        line.append(" bytes");
        lines.push(line);
        let mut line = String::from_str("Padding byte: 0x");
        push_hex_width(&mut line, self.pad_byte as usize, 2);
        lines.push(line);
        let mut line = String::from_str("Populated banks: ");
        push_dec(&mut line, self.populated_count());
        lines.push(line);
        lines.push(String::from_str("Banks:"));
        let ghost head = header_lines(*self, binary_name@);
        assert(lines@.map_values(|l: String| l@) =~= head);
        let mut b: usize = 0;
        while b < self.banks.len()
            invariant
                self.layout.unit_size > 0,
                self.banks@.len() <= self.spec_bank_count(),
                b <= self.banks@.len(),
                lines@.map_values(|l: String| l@) == head + Seq::new(b as nat, |k: int| bank_line(*self, k as nat)),
            decreases self.banks@.len() - b,
        {
            let line = self.bank_summary_line(b);
            proof {
                lemma_push_views(lines@, line);
            }
            lines.push(line);
            b += 1;
            assert(lines@.map_values(|l: String| l@) =~= head + Seq::new(
                b as nat,
                |k: int| bank_line(*self, k as nat),
            ));
        }
        let rest = self.chip.remainder(self.layout);
        if rest > 0 {
            let count = self.chip.bank_count(self.layout);
            let start = count * self.layout.unit_size;
            let mut line = String::from_str("Unused remainder: 0x");
            push_hex_width(&mut line, start, 5);
            line.append("-0x");
            push_hex_width(&mut line, self.chip.capacity - 1, 5);
            line.append(" (");
            push_dec(&mut line, rest);
            line.append(" bytes)");
            lines.push(line);
        }
        lines.push(String::new());
        lines.push(String::from_str("Slot layout (for re-import, do not edit):"));
        let ghost before = lines@.map_values(|l: String| l@);
        assert(before =~= head + Seq::new(self.banks@.len(), |k: int| bank_line(*self, k as nat))
            + remainder_lines(*self) + seq![Seq::empty(), "Slot layout (for re-import, do not edit):"@]);
        let mut b: usize = 0;
        while b < self.banks.len()
            invariant
                self.banks_fit(),
                b <= self.banks@.len(),
                lines@.map_values(|l: String| l@) == before + layout_lines_upto(self.banks@, b as nat),
            decreases self.banks@.len() - b,
        {
            if let Some(rom) = &self.banks[b] {
                assert(self.banks@[b as int] is Some);
                Self::push_layout_lines(&mut lines, b, rom);
            }
            b += 1;
            assert(lines@.map_values(|l: String| l@) =~= before + layout_lines_upto(self.banks@, b as nat));
        }
        lines.push(String::new());
        assert(lines@.map_values(|l: String| l@) =~= metadata_lines(*self, binary_name@));
        join_with_newlines(&lines)
    }

    /// Maps a chip-sized buffer into banks. Banks present in `slot_layout` are
    /// rebuilt with their recorded sub-slots; the rest are placed linearly as a
    /// single slot (skipping all-padding banks). Any remainder region beyond the
    /// last full bank is checked for real data so the caller can warn.
    pub fn import_bytes_with(
        chip: Chip,
        layout: RomLayout,
        data: &[u8],
        pad_byte: u8,
        slot_layout: &HashMap<usize, BankLayout>,
    ) -> (result: Result<(Self, Option<String>), String>)
        requires
            layout.unit_size > 0,
            sidecar_totals_bounded(slot_layout@, chip.spec_bank_count(layout)),
        ensures
            data@.len() != chip.capacity ==> (result matches Err(e) && e@ == image_size_message(
                chip,
                data@.len(),
            )),
            data@.len() == chip.capacity ==> {
                &&& result is Err <==> exists|b: int|
                    0 <= b < chip.spec_bank_count(layout) && #[trigger] sidecar_overflows(slot_layout@, layout, b)
                &&& result matches Err(e) ==> exists|b: int|
                    0 <= b < chip.spec_bank_count(layout) && #[trigger] sidecar_overflows(slot_layout@, layout, b)
                        && (forall|c: int| 0 <= c < b ==> !sidecar_overflows(slot_layout@, layout, c))
                        && e@ == layout_overflow_message(
                        spec_total(slot_layout@[b as usize].slots@),
                        layout.unit_size as nat,
                    )
            },
            result matches Ok((image, warning)) ==> {
                &&& data@.len() == chip.capacity
                &&& image.chip == chip
                &&& image.layout == layout
                &&& image.pad_byte == pad_byte
                &&& image.banks@.len() == chip.spec_bank_count(layout)
                &&& forall|b: int|
                    0 <= b < chip.spec_bank_count(layout) ==> #[trigger] imported_bank(
                        image.banks@[b],
                        chip,
                        layout,
                        data@,
                        pad_byte,
                        slot_layout@,
                        b,
                    )
                &&& warning is Some <==> tail_has_data(chip, layout, data@, pad_byte)
                &&& warning matches Some(w) ==> w@ == tail_warning(chip, layout, data@.len())
            },
    {
        broadcast use vstd::std_specs::hash::group_hash_axioms;

        if data.len() != chip.capacity {
            let mut e = String::from_str("image is ");
            push_dec(&mut e, data.len());
            e.append(" bytes, but ");
            e.append(chip.id);
            e.append(" requires ");
            push_dec(&mut e, chip.capacity);
            e.append(" bytes");
            return Err(e);
        }
        let mut image = Self::new(chip, layout);
        image.pad_byte = pad_byte;
        let count = chip.bank_count(layout);
        let unit = layout.unit_size;
        let mut bank_index: usize = 0;
        while bank_index < count
            invariant
                count == chip.spec_bank_count(layout),
                unit == layout.unit_size,
                unit > 0,
                data@.len() == chip.capacity,
                sidecar_totals_bounded(slot_layout@, chip.spec_bank_count(layout)),
                bank_index <= count,
                image.chip == chip,
                image.layout == layout,
                image.pad_byte == pad_byte,
                image.banks@.len() == count,
                forall|b: int| 0 <= b < bank_index ==> !sidecar_overflows(slot_layout@, layout, b),
                forall|b: int|
                    0 <= b < bank_index ==> #[trigger] imported_bank(
                        image.banks@[b],
                        chip,
                        layout,
                        data@,
                        pad_byte,
                        slot_layout@,
                        b,
                    ),
                forall|b: int| bank_index <= b < count ==> image.banks@[b] is None,
            decreases count - bank_index,
        {
            proof {
                crate::catalog::lemma_bank_within_chip(bank_index as nat, unit as nat, chip.capacity as nat);
            }
            let start = bank_index * unit;
            let bank_data = vstd::slice::slice_subrange(data, start, start + unit);
            assert(bank_data@ == bank_chunk(data@, layout, bank_index as int));
            let mut handled = false;
            if let Some(bank_layout) = slot_layout.get(&bank_index) {
                if bank_layout.slots.len() > 0 {
                    assert(uses_sidecar(slot_layout@, bank_index as int));
                    let remainder_label = if bank_layout.remainder_label.as_str().is_empty() {
                        String::from_str("Free")
                    } else {
                        bank_layout.remainder_label.clone()
                    };
                    match RomBank::from_layout(bank_data, bank_layout.slots.as_slice(), remainder_label) {
                        Ok(rom) => {
                            image.banks.set(bank_index, Some(rom));
                        },
                        Err(e) => {
                            assert(sidecar_overflows(slot_layout@, layout, bank_index as int));
                            return Err(e);
                        },
                    }
                    handled = true;
                }
            }
            if !handled {
                let mut all_pad_bytes = true;
                let mut k: usize = 0;
                while k < bank_data.len()
                    invariant
                        k <= bank_data@.len(),
                        all_pad_bytes == (forall|i: int| 0 <= i < k ==> bank_data@[i] == pad_byte),
                    decreases bank_data@.len() - k,
                {
                    if bank_data[k] != pad_byte {
                        all_pad_bytes = false;
                    }
                    k += 1;
                }
                if !all_pad_bytes {
                    let mut label = String::from_str(chip.id);
                    label.append(" bank ");
                    push_dec(&mut label, bank_index);
                    let rom = RomBank::from_slice(layout, label, bank_data)?;
                    image.banks.set(bank_index, Some(rom));
                }
            }
            bank_index += 1;
        }
        let mapped = count * unit;
        let mut has_data = false;
        let mut k = mapped;
        while k < data.len()
            invariant
                mapped <= k <= data@.len(),
                has_data == (exists|i: int| mapped <= i < k && data@[i] != pad_byte),
            decreases data@.len() - k,
        {
            if data[k] != pad_byte {
                has_data = true;
            }
            k += 1;
        }
        let warning = if mapped < data.len() && has_data {
            let mut w = String::new();
            push_dec(&mut w, data.len() - mapped);
            w.append(" trailing byte(s) at 0x");
            push_hex_width(&mut w, mapped, 5);
            w.append("-0x");
            push_hex_width(&mut w, data.len() - 1, 5);
            w.append(" fall beyond the last full ");
            w.append(layout.name);
            w.append(" bank and were not imported; they will be padded on export.");
            Some(w)
        } else {
            None
        };
        Ok((image, warning))
    }
}

} // verus!
