//! The rows of the bank table: one for an unused bank, one for each slot of
//! a populated bank, and one for the free space after a bank's last slot.
use vstd::prelude::*;
use crate::bank::{lemma_slot_total_prefix, lemma_slot_total_step, lemma_slot_total_whole, RomBank};
use crate::image::ProjectImage;
use crate::text::{dec, hex_width, push_dec, push_hex_width};

verus! {

/// What a row of the bank table stands for.
#[derive(Clone, Copy, Debug, PartialEq, Eq, Structural)]
pub enum RowKind {
    /// A bank that holds nothing.
    Unused,
    /// A slot holding a ROM.
    Slot,
    /// A slot that was blanked and holds only padding.
    BlankSlot,
    /// The space after a bank's last slot.
    Free,
}

/// One row of the bank table: a stretch of the chip image.
#[derive(Clone, Copy, Debug, PartialEq, Eq, Structural)]
pub struct BankRow {
    /// The slot index within its bank (the slot count for free space).
    pub slot: usize,
    /// Offset of the stretch in the chip image.
    pub start: usize,
    /// Length of the stretch in bytes.
    pub len: usize,
    pub kind: RowKind,
}

/// The row of slot `j` of `rom`, for a bank starting at `base`.
pub open spec fn slot_row(rom: RomBank, base: int, j: int) -> BankRow {
    BankRow {
        slot: j as usize,
        start: (base + rom.spec_slot_start(j)) as usize,
        len: rom.slots@[j].len,
        kind: if rom.slots@[j].blank {
            RowKind::BlankSlot
        } else {
            RowKind::Slot
        },
    }
}

/// The rows of bank `bank` of `image`, in table order.
pub open spec fn bank_rows_of(image: ProjectImage, bank: int) -> Seq<BankRow> {
    let unit = image.layout.unit_size as int;
    let base = bank * unit;
    match image.banks@[bank] {
        None => seq![BankRow { slot: 0, start: base as usize, len: unit as usize, kind: RowKind::Unused }],
        Some(rom) => Seq::new(rom.slots@.len(), |j: int| slot_row(rom, base, j)) + if rom.spec_used()
            < rom.data@.len() {
            seq![
                BankRow {
                    slot: rom.slots@.len() as usize,
                    start: (base + rom.spec_used()) as usize,
                    len: (rom.data@.len() - rom.spec_used()) as usize,
                    kind: RowKind::Free,
                },
            ]
        } else {
            Seq::empty()
        },
    }
}

/// The rows that the bank table shows for bank `bank`.
pub fn bank_rows(image: &ProjectImage, bank: usize) -> (rows: Vec<BankRow>)
    requires
        image.layout.unit_size > 0,
        bank < image.spec_bank_count(),
        bank < image.banks@.len(),
        image.banks_sized(),
        image.banks@[bank as int] matches Some(rom) ==> rom.fits(),
    ensures
        rows@ == bank_rows_of(*image, bank as int),
        forall|k: int| 0 <= k < rows@.len() ==> #[trigger] rows@[k].start + rows@[k].len <= image.chip.capacity,
{
    let unit = image.layout.unit_size;
    let range = image.chip.bank_range(image.layout, bank);
    let base = match range {
        Some(r) => r.start,
        None => {
            return Vec::new();
        },
    };
    assert(base + unit <= image.chip.capacity);
    let mut rows: Vec<BankRow> = Vec::new();
    match &image.banks[bank] {
        None => {
            rows.push(BankRow { slot: 0, start: base, len: unit, kind: RowKind::Unused });
            assert(rows@ =~= bank_rows_of(*image, bank as int));
        },
        Some(rom) => {
            let ghost slots = rom.slots@;
            let ghost want = Seq::new(slots.len(), |j: int| slot_row(*rom, base as int, j));
            assert(rom.data@.len() == unit);
            let mut offset: usize = 0;
            let mut j: usize = 0;
            assert(slots.take(0) =~= Seq::<crate::bank::BankSlot>::empty());
            while j < rom.slots.len()
                invariant
                    slots == rom.slots@,
                    want == Seq::new(slots.len(), |j: int| slot_row(*rom, base as int, j)),
                    j <= slots.len(),
                    offset == rom.spec_slot_start(j as int),
                    rom.spec_used() <= unit,
                    base + unit <= image.chip.capacity,
                    rows@ == want.take(j as int),
                    forall|k: int| 0 <= k < rows@.len() ==> #[trigger] rows@[k].start + rows@[k].len <= image.chip.capacity,
                decreases slots.len() - j,
            {
                proof {
                    lemma_slot_total_step(slots, j as int);
                    lemma_slot_total_prefix(slots, j + 1, slots.len() as int);
                    lemma_slot_total_whole(slots);
                }
                let slot = &rom.slots[j];
                let kind = if slot.blank {
                    RowKind::BlankSlot
                } else {
                    RowKind::Slot
                };
                rows.push(BankRow { slot: j, start: base + offset, len: slot.len, kind });
                offset = offset + slot.len;
                j += 1;
                assert(rows@ =~= want.take(j as int));
            }
            assert(want.take(j as int) =~= want);
            proof {
                lemma_slot_total_whole(slots);
            }
            if offset < rom.data.len() {
                rows.push(
                    BankRow { slot: rom.slots.len(), start: base + offset, len: rom.data.len() - offset, kind: RowKind::Free },
                );
            }
            assert(rows@ =~= bank_rows_of(*image, bank as int));
        },
    }
    rows
}

/// The rows of a bank tile it: the first starts at the bank's offset in the
/// chip image, each next row starts where the one before it ends, and the
/// last ends where the bank ends.
pub proof fn lemma_bank_rows_tile(image: ProjectImage, bank: int)
    requires
        image.layout.unit_size > 0,
        0 <= bank < image.spec_bank_count(),
        bank < image.banks@.len(),
        image.banks_sized(),
        image.banks@[bank] matches Some(rom) ==> rom.fits(),
    ensures
        bank_rows_of(image, bank).len() > 0,
        bank_rows_of(image, bank)[0].start == bank * image.layout.unit_size,
        forall|k: int|
            0 < k < bank_rows_of(image, bank).len() ==> #[trigger] bank_rows_of(image, bank)[k].start == bank_rows_of(
                image,
                bank,
            )[k - 1].start + bank_rows_of(image, bank)[k - 1].len,
        bank_rows_of(image, bank).last().start + bank_rows_of(image, bank).last().len == (bank + 1)
            * image.layout.unit_size,
{
    let unit = image.layout.unit_size as int;
    let base = bank * unit;
    crate::catalog::lemma_bank_within_chip(bank as nat, unit as nat, image.chip.capacity as nat);
    assert(base + unit <= image.chip.capacity);
    let rows = bank_rows_of(image, bank);
    match image.banks@[bank] {
        None => {},
        Some(rom) => {
            let slots = rom.slots@;
            let n = slots.len() as int;
            assert(rom.data@.len() == unit);
            lemma_slot_total_whole(slots);
            assert(rom.spec_used() == rom.spec_slot_start(n));
            assert forall|j: int| 0 <= j <= n implies #[trigger] rom.spec_slot_start(j) <= rom.spec_used() by {
                lemma_slot_total_prefix(slots, j, n);
            }
            assert forall|j: int| 0 <= j < n implies #[trigger] rom.spec_slot_start(j + 1) == rom.spec_slot_start(j)
                + slots[j].len by {
                lemma_slot_total_step(slots, j);
            }
            assert(rom.spec_slot_start(0) == 0) by {
                assert(slots.take(0) =~= Seq::<crate::bank::BankSlot>::empty());
            }
            assert forall|k: int| 0 < k < rows.len() implies #[trigger] rows[k].start == rows[k - 1].start + rows[k
                - 1].len by {
                lemma_slot_total_step(slots, k - 1);
                assert(rom.spec_slot_start(k) == rom.spec_slot_start(k - 1) + slots[k - 1].len);
                assert(rom.spec_slot_start(k - 1) <= rom.spec_used());
                assert(rom.spec_slot_start(k) <= rom.spec_used());
            }
            if n > 0 {
                assert(rows[0] == slot_row(rom, base, 0));
            }
            if rom.spec_used() < rom.data@.len() {
                assert(rows.last().start == base + rom.spec_used());
            } else {
                assert(rows.last() == slot_row(rom, base, n - 1));
                lemma_slot_total_step(slots, n - 1);
                assert(rom.spec_slot_start(n) == rom.spec_slot_start(n - 1) + slots[n - 1].len);
                assert(rom.spec_slot_start(n - 1) <= rom.spec_used());
            }
        },
    }
    assert(base + unit == (bank + 1) * unit) by (nonlinear_arith)
        requires
            base == bank * unit,
    ;
}

/// The index text of a row of bank `bank`: the bank number, followed by a
/// dot and the slot number for any row but a bank's first slot.
pub open spec fn row_index_text(bank: nat, row: BankRow) -> Seq<char> {
    if row.kind == RowKind::Free || row.slot > 0 {
        dec(bank) + "."@ + dec(row.slot as nat)
    } else {
        dec(bank)
    }
}

/// The index text of `row`, a row of bank `bank`.
pub fn row_index_label(bank: usize, row: &BankRow) -> (label: String)
    ensures
        label@ == row_index_text(bank as nat, *row),
{
    let mut label = String::new();
    push_dec(&mut label, bank);
    let free = match row.kind {
        RowKind::Free => true,
        _ => false,
    };
    if free || row.slot > 0 {
        label.append(".");
        push_dec(&mut label, row.slot);
    }
    proof {
        reveal_strlit(".");
    }
    assert(label@ =~= row_index_text(bank as nat, *row));
    label
}

/// The offsets of a stretch, first and last byte, as the table shows them.
pub open spec fn range_text(first: nat, last: nat) -> Seq<char> {
    "0x"@ + hex_width(first, 5) + "-0x"@ + hex_width(last, 5)
}

impl BankRow {
    /// The offsets of the row's first and last byte.
    pub fn range_label(&self) -> (label: String)
        requires
            1 <= self.start + self.len <= usize::MAX,
        ensures
            label@ == range_text(self.start as nat, (self.start + self.len - 1) as nat),
    {
        let mut label = String::from_str("0x");
        push_hex_width(&mut label, self.start, 5);
        label.append("-0x");
        push_hex_width(&mut label, self.start + self.len - 1, 5);
        label
    }
}

} // verus!
