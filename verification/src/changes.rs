//! Decisions behind the editor's commands: what a new bank size or chip
//! does to an image, where a selection stands in the catalogs, and the
//! file names offered when extracting.
use vstd::prelude::*;
use crate::catalog::{chip_table, chips, layout_table, layouts, Chip, RomLayout};
use crate::bank::{lemma_slot_total_step, lemma_slot_total_whole, slot_total, RomBank};
use crate::image::{count_some, ProjectImage};
use crate::labels::{extract_file_name, extract_name};
use crate::project::{lowercase, to_lowercase};
use crate::text::{dec, hex_width, push_dec, push_hex_width, str_equal};

verus! {

/// Two layouts with the same id, name and bank size.
pub open spec fn same_layout(a: RomLayout, b: RomLayout) -> bool {
    a.id@ == b.id@ && a.name@ == b.name@ && a.unit_size == b.unit_size
}

/// Two chips with the same id, name, capacity and pad byte.
pub open spec fn same_chip(a: Chip, b: Chip) -> bool {
    a.id@ == b.id@ && a.name@ == b.name@ && a.capacity == b.capacity && a.pad_byte == b.pad_byte
}

/// What choosing a layout does to an image.
#[derive(Clone, Copy, Debug, PartialEq, Eq, Structural)]
pub enum LayoutChange {
    /// It is the image's layout already.
    Unchanged,
    /// Same bank size: only the platform name changes, the banks stay.
    Relabel,
    /// The image holds no ROM: the new layout applies at once.
    Direct,
    /// Smaller banks with content: splitting needs confirmation.
    Split,
    /// Larger banks with content: consolidating needs confirmation.
    Consolidate,
}

/// What choosing a chip does to an image.
#[derive(Clone, Copy, Debug, PartialEq, Eq, Structural)]
pub enum ChipChange {
    /// It is the image's chip already.
    Unchanged,
    /// The new chip would drop populated banks: ask first.
    Confirm,
    /// The new chip applies at once.
    Commit,
}

/// Whether two layouts are the same.
fn layouts_equal(a: RomLayout, b: RomLayout) -> (same: bool)
    ensures
        same == same_layout(a, b),
{
    a.unit_size == b.unit_size && str_equal(a.id, b.id) && str_equal(a.name, b.name)
}

/// Whether two chips are the same.
fn chips_equal(a: Chip, b: Chip) -> (same: bool)
    ensures
        same == same_chip(a, b),
{
    a.capacity == b.capacity && a.pad_byte == b.pad_byte && str_equal(a.id, b.id) && str_equal(a.name, b.name)
}

impl ProjectImage {
    /// What switching the image to `layout` takes.
    pub fn layout_change(&self, layout: RomLayout) -> (change: LayoutChange)
        ensures
            change == (if same_layout(layout, self.layout) {
                LayoutChange::Unchanged
            } else if layout.unit_size == self.layout.unit_size {
                LayoutChange::Relabel
            } else if count_some(self.banks@) == 0 {
                LayoutChange::Direct
            } else if layout.unit_size < self.layout.unit_size {
                LayoutChange::Split
            } else {
                LayoutChange::Consolidate
            }),
    {
        if layouts_equal(layout, self.layout) {
            LayoutChange::Unchanged
        } else if layout.unit_size == self.layout.unit_size {
            LayoutChange::Relabel
        } else if self.populated_count() == 0 {
            LayoutChange::Direct
        } else if layout.unit_size < self.layout.unit_size {
            LayoutChange::Split
        } else {
            LayoutChange::Consolidate
        }
    }

    /// What switching the image to `chip` takes.
    pub fn chip_change(&self, chip: Chip) -> (change: ChipChange)
        requires
            self.layout.unit_size > 0,
        ensures
            change == (if same_chip(chip, self.chip) {
                ChipChange::Unchanged
            } else if exists|i: int|
                chip.spec_bank_count(self.layout) <= i < self.banks@.len() && #[trigger] self.banks@[i] is Some {
                ChipChange::Confirm
            } else {
                ChipChange::Commit
            }),
    {
        if chips_equal(chip, self.chip) {
            ChipChange::Unchanged
        } else if self.chip_change_drops_data(chip) {
            ChipChange::Confirm
        } else {
            ChipChange::Commit
        }
    }

    /// The file name offered when exporting the image.
    pub fn export_file_name(&self) -> (name: String)
        ensures
            name@ == lowercase(self.chip.id@) + "_image.bin"@,
    {
        let mut name = to_lowercase(self.chip.id);
        name.append("_image.bin");
        name
    }

    /// The file name offered when extracting bank `bank`: from the name of
    /// its first slot, or else from the chip and the bank number.
    pub fn bank_file_name(&self, bank: usize) -> (name: String)
        requires
            bank < self.banks@.len(),
        ensures
            name@ == (if self.banks@[bank as int] is Some && self.banks@[bank as int]->Some_0.slots@.len() > 0 {
                extract_name(self.banks@[bank as int]->Some_0.slots@[0].label@)
            } else {
                lowercase(self.chip.id@) + "_bank_"@ + dec(bank as nat) + ".bin"@
            }),
    {
        if let Some(rom) = &self.banks[bank] {
            if rom.slots.len() > 0 {
                return extract_file_name(rom.slots[0].label.as_str());
            }
        }
        let mut name = to_lowercase(self.chip.id);
        name.append("_bank_");
        push_dec(&mut name, bank);
        name.append(".bin");
        name
    }

    /// The file name offered when extracting slot `slot` of bank `bank`: from
    /// the slot's name, or else from the chip, the bank and the slot number.
    pub fn slot_file_name(&self, bank: usize, slot: usize) -> (name: String)
        requires
            bank < self.banks@.len(),
        ensures
            name@ == (if self.banks@[bank as int] is Some && slot < self.banks@[bank as int]->Some_0.slots@.len() {
                extract_name(self.banks@[bank as int]->Some_0.slots@[slot as int].label@)
            } else {
                lowercase(self.chip.id@) + "_bank_"@ + dec(bank as nat) + "_slot_"@ + dec(slot as nat) + ".bin"@
            }),
    {
        if let Some(rom) = &self.banks[bank] {
            if slot < rom.slots.len() {
                return extract_file_name(rom.slots[slot].label.as_str());
            }
        }
        let mut name = to_lowercase(self.chip.id);
        name.append("_bank_");
        push_dec(&mut name, bank);
        name.append("_slot_");
        push_dec(&mut name, slot);
        name.append(".bin");
        name
    }
}

impl RomBank {
    /// Whether the slots fit inside the bank image.
    pub fn slots_fit(&self) -> (fit: bool)
        ensures
            fit == self.fits(),
    {
        let limit = self.data.len();
        let mut total: usize = 0;
        let mut i: usize = 0;
        assert(self.slots@.take(0) =~= Seq::<crate::bank::BankSlot>::empty());
        while i < self.slots.len()
            invariant
                limit == self.data@.len(),
                i <= self.slots@.len(),
                total == slot_total(self.slots@.take(i as int)),
                total <= limit,
            decreases self.slots@.len() - i,
        {
            proof {
                lemma_slot_total_step(self.slots@, i as int);
            }
            let len = self.slots[i].len;
            if len > limit - total {
                proof {
                    lemma_totals_grow(self.slots@, i + 1);
                }
                return false;
            }
            total = total + len;
            i += 1;
        }
        proof {
            lemma_slot_total_whole(self.slots@);
        }
        true
    }
}

/// Slot totals only grow along a run of slots.
proof fn lemma_totals_grow(slots: Seq<crate::bank::BankSlot>, i: int)
    requires
        0 <= i <= slots.len(),
    ensures
        slot_total(slots.take(i)) <= slot_total(slots),
{
    crate::bank::lemma_slot_total_prefix(slots, i, slots.len() as int);
    lemma_slot_total_whole(slots);
}

impl ProjectImage {
    /// Whether the image is in the shape every editing operation expects:
    /// banks of a non-zero size, one entry per bank of the chip, every
    /// populated bank exactly one bank long with its slots inside it.
    pub fn is_consistent(&self) -> (ok: bool)
        ensures
            ok == (self.layout.unit_size > 0 && self.banks@.len() == self.spec_bank_count() && self.banks_sized()
                && self.banks_fit()),
    {
        if self.layout.unit_size == 0 {
            return false;
        }
        if self.banks.len() != self.chip.bank_count(self.layout) {
            return false;
        }
        let mut b: usize = 0;
        while b < self.banks.len()
            invariant
                self.layout.unit_size > 0,
                self.banks@.len() == self.spec_bank_count(),
                b <= self.banks@.len(),
                forall|k: int|
                    0 <= k < b && #[trigger] self.banks@[k] is Some ==> self.banks@[k]->Some_0.data@.len()
                        == self.layout.unit_size && self.banks@[k]->Some_0.fits(),
            decreases self.banks@.len() - b,
        {
            if let Some(rom) = &self.banks[b] {
                if rom.data.len() != self.layout.unit_size || !rom.slots_fit() {
                    return false;
                }
            }
            b += 1;
        }
        true
    }
}

/// The catalog position of `chip`: the first equal entry, or 0.
pub fn chip_index_of(chip: Chip) -> (index: usize)
    ensures
        index < chip_table().len(),
        (exists|i: int| 0 <= i < chip_table().len() && same_chip(#[trigger] chip_table()[i], chip)) ==> {
            &&& same_chip(chip_table()[index as int], chip)
            &&& forall|i: int| 0 <= i < index ==> !same_chip(#[trigger] chip_table()[i], chip)
        },
        (forall|i: int| 0 <= i < chip_table().len() ==> !same_chip(#[trigger] chip_table()[i], chip)) ==> index
            == 0,
{
    let table = chips();
    let mut i: usize = 0;
    while i < table.len()
        invariant
            table@ == chip_table(),
            i <= table@.len(),
            forall|k: int| 0 <= k < i ==> !same_chip(#[trigger] chip_table()[k], chip),
        decreases table@.len() - i,
    {
        if chips_equal(table[i], chip) {
            return i;
        }
        i += 1;
    }
    0
}

/// The catalog position of `layout`: the first equal entry, or 0.
pub fn layout_index_of(layout: RomLayout) -> (index: usize)
    ensures
        index < layout_table().len(),
        (exists|i: int| 0 <= i < layout_table().len() && same_layout(#[trigger] layout_table()[i], layout)) ==> {
            &&& same_layout(layout_table()[index as int], layout)
            &&& forall|i: int| 0 <= i < index ==> !same_layout(#[trigger] layout_table()[i], layout)
        },
        (forall|i: int| 0 <= i < layout_table().len() ==> !same_layout(#[trigger] layout_table()[i], layout))
            ==> index == 0,
{
    let table = layouts();
    let mut i: usize = 0;
    while i < table.len()
        invariant
            table@ == layout_table(),
            i <= table@.len(),
            forall|k: int| 0 <= k < i ==> !same_layout(#[trigger] layout_table()[k], layout),
        decreases table@.len() - i,
    {
        if layouts_equal(table[i], layout) {
            return i;
        }
        i += 1;
    }
    0
}

/// The pad byte as the editor shows it: two upper-case hexadecimal digits.
pub fn pad_byte_text(pad: u8) -> (text: String)
    ensures
        text@ == hex_width(pad as nat, 2),
{
    let mut text = String::new();
    push_hex_width(&mut text, pad as usize, 2);
    text
}

} // verus!
