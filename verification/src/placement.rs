//! Placing ROM files into the banks of an image: whole, padded, trimmed or
//! spread over several banks, and refilling, reading and removing slots.
use vstd::prelude::*;
use crate::bank::{
    compacted, empty_rom_message, filled, free_label, lemma_slot_total_prefix, lemma_slot_total_step,
    lemma_slot_total_whole, size_mismatch_message, BankSlot, RemovePolicy, RomBank,
};
use crate::catalog::RomLayout;
use crate::image::{bank_range_message, no_empty_bank_message, ProjectImage};
use crate::text::{dec, push_dec};

verus! {

/// `data` padded with `pad` to `len` bytes.
pub open spec fn padded(data: Seq<u8>, len: nat, pad: u8) -> Seq<u8> {
    Seq::new(len, |i: int| if i < data.len() { data[i] } else { pad })
}

/// `entry` is a bank of one slot, named `label`, from `source`, of `len`
/// bytes, over the bank image `data`.
pub open spec fn holds_rom(entry: Option<RomBank>, label: Seq<char>, source: Option<String>, len: nat, data: Seq<u8>) -> bool {
    &&& entry is Some
    &&& entry->Some_0.data@ == data
    &&& entry->Some_0.slots@.len() == 1
    &&& entry->Some_0.slots@[0].label@ == label
    &&& entry->Some_0.slots@[0].source_path == source
    &&& entry->Some_0.slots@[0].len == len
    &&& !entry->Some_0.slots@[0].blank
    &&& entry->Some_0.remainder_label@ == free_label()
}

/// The image keeps its chip, layout and pad byte.
pub open spec fn same_frame(a: ProjectImage, b: ProjectImage) -> bool {
    a.chip == b.chip && a.layout == b.layout && a.pad_byte == b.pad_byte
}

/// The index of the first empty bank.
pub open spec fn first_empty(banks: Seq<Option<RomBank>>, b: int) -> bool {
    &&& 0 <= b < banks.len()
    &&& banks[b] is None
    &&& forall|k: int| 0 <= k < b ==> banks[k] is Some
}

/// Every bank is populated.
pub open spec fn all_full(banks: Seq<Option<RomBank>>) -> bool {
    forall|k: int| 0 <= k < banks.len() ==> banks[k] is Some
}

/// What adding one ROM file to the image came to.
#[derive(Clone, Copy, Debug, PartialEq, Eq, Structural)]
pub enum AddStep {
    /// The ROM went into this bank.
    Added(usize),
    /// The ROM is larger than a bank; this is the first empty bank, where the
    /// user may trim it or spread it.
    Oversized(usize),
}

/// What placing a ROM file into a chosen bank came to.
#[derive(Clone, Copy, Debug, PartialEq, Eq, Structural)]
pub enum PlaceStep {
    /// The ROM is in the bank.
    Placed,
    /// The ROM is larger than a bank; nothing changed.
    Oversized,
}

/// What replacing a bank with a ROM file came to.
#[derive(Clone, Copy, Debug, PartialEq, Eq, Structural)]
pub enum ReplaceStep {
    /// The bank now holds the ROM.
    Replaced,
    /// The ROM is larger than a bank; nothing changed.
    TooLarge,
    /// The ROM is smaller than a bank; nothing changed.
    TooSmall,
}

impl RomBank {
    /// Builds a bank holding one full-size ROM read from `source_path`.
    pub fn from_source(layout: RomLayout, label: String, source_path: String, data: &[u8]) -> (result: Result<Self, String>)
        ensures
            match result {
                Ok(bank) => {
                    &&& data@.len() == layout.unit_size
                    &&& holds_rom(Some(bank), label@, Some(source_path), data@.len(), data@)
                },
                Err(e) => data@.len() != layout.unit_size && e@ == size_mismatch_message(layout, data@.len()),
            },
    {
        let mut bank = RomBank::from_slice(layout, label, data)?;
        bank.slots.set(0, BankSlot { label: bank.slots[0].label.clone(), source_path: Some(source_path), len: data.len(), blank: false });
        Ok(bank)
    }
}

impl ProjectImage {
    /// Adds one ROM file to the first empty bank: a ROM of exactly one bank
    /// goes in as it is, a smaller one is padded with the pad byte, and for a
    /// larger one the first empty bank is named so the user can choose how to
    /// place it.
    pub fn add_rom_file(&mut self, label: String, data: &[u8]) -> (result: Result<AddStep, String>)
        requires
            old(self).layout.unit_size > 0,
            old(self).spec_bank_count() == old(self).banks@.len(),
        ensures
            same_frame(*final(self), *old(self)),
            match result {
                Ok(AddStep::Added(b)) => {
                    &&& 0 < data@.len() <= old(self).layout.unit_size
                    &&& first_empty(old(self).banks@, b as int)
                    &&& holds_rom(
                        final(self).banks@[b as int],
                        label@,
                        None,
                        data@.len(),
                        padded(data@, old(self).layout.unit_size as nat, old(self).pad_byte),
                    )
                    &&& final(self).banks@ == old(self).banks@.update(b as int, final(self).banks@[b as int])
                },
                Ok(AddStep::Oversized(b)) => {
                    &&& data@.len() > old(self).layout.unit_size
                    &&& first_empty(old(self).banks@, b as int)
                    &&& final(self).banks == old(self).banks
                },
                Err(e) => {
                    &&& final(self).banks == old(self).banks
                    &&& data@.len() == 0 ==> e@ == empty_rom_message()
                    &&& data@.len() > 0 ==> all_full(old(self).banks@) && e@ == no_empty_bank_message(old(self).chip)
                },
            },
    {
        let unit = self.layout.unit_size;
        if data.len() > unit {
            return match self.first_empty_bank() {
                Some(b) => Ok(AddStep::Oversized(b)),
                None => {
                    let mut e = String::from_str("No empty banks remain for ");
                    e.append(self.chip.id);
                    Err(e)
                },
            };
        }
        let rom = if data.len() == unit {
            match RomBank::from_slice(self.layout, label, data) {
                Ok(rom) => rom,
                Err(e) => {
                    return Err(e);
                },
            }
        } else {
            match RomBank::from_partial(self.layout, label, data, self.pad_byte) {
                Ok(rom) => rom,
                Err(e) => {
                    return Err(e);
                },
            }
        };
        assert(rom.data@ =~= padded(data@, unit as nat, self.pad_byte));
        match self.add_rom(rom) {
            Ok(b) => Ok(AddStep::Added(b)),
            Err(e) => Err(e),
        }
    }

    /// Places one ROM file into bank `bank`: a ROM of exactly one bank as it
    /// is, a smaller one padded with the pad byte; a larger one is left for
    /// the user to trim or spread.
    pub fn place_rom_file(&mut self, bank: usize, label: String, data: &[u8]) -> (result: Result<PlaceStep, String>)
        requires
            old(self).layout.unit_size > 0,
            old(self).spec_bank_count() <= old(self).banks@.len(),
        ensures
            same_frame(*final(self), *old(self)),
            (result matches Ok(PlaceStep::Oversized)) <==> data@.len() > old(self).layout.unit_size,
            match result {
                Ok(PlaceStep::Placed) => {
                    &&& 0 < data@.len() <= old(self).layout.unit_size
                    &&& bank < old(self).spec_bank_count()
                    &&& holds_rom(
                        final(self).banks@[bank as int],
                        label@,
                        None,
                        data@.len(),
                        padded(data@, old(self).layout.unit_size as nat, old(self).pad_byte),
                    )
                    &&& final(self).banks@ == old(self).banks@.update(bank as int, final(self).banks@[bank as int])
                },
                Ok(PlaceStep::Oversized) => {
                    &&& data@.len() > old(self).layout.unit_size
                    &&& final(self).banks == old(self).banks
                },
                Err(e) => {
                    &&& final(self).banks == old(self).banks
                    &&& data@.len() == 0 ==> e@ == empty_rom_message()
                    &&& data@.len() > 0 ==> bank >= old(self).spec_bank_count() && e@ == bank_range_message(
                        old(self).chip,
                        old(self).layout,
                        bank as nat,
                    )
                },
            },
    {
        let unit = self.layout.unit_size;
        if data.len() > unit {
            return Ok(PlaceStep::Oversized);
        }
        let rom = if data.len() == unit {
            match RomBank::from_slice(self.layout, label, data) {
                Ok(rom) => rom,
                Err(e) => {
                    return Err(e);
                },
            }
        } else {
            match RomBank::from_partial(self.layout, label, data, self.pad_byte) {
                Ok(rom) => rom,
                Err(e) => {
                    return Err(e);
                },
            }
        };
        assert(rom.data@ =~= padded(data@, unit as nat, self.pad_byte));
        match self.set_bank(bank, rom) {
            Ok(()) => Ok(PlaceStep::Placed),
            Err(e) => Err(e),
        }
    }

    /// Places the first bank's worth of an oversized ROM into bank `bank`.
    pub fn trim_into_bank(&mut self, bank: usize, label: String, data: &[u8]) -> (result: Result<(), String>)
        requires
            old(self).layout.unit_size > 0,
            old(self).spec_bank_count() <= old(self).banks@.len(),
        ensures
            same_frame(*final(self), *old(self)),
            result is Ok <==> (data@.len() >= old(self).layout.unit_size && bank < old(self).spec_bank_count()),
            match result {
                Ok(()) => {
                    &&& holds_rom(
                        final(self).banks@[bank as int],
                        label@,
                        None,
                        old(self).layout.unit_size as nat,
                        data@.take(old(self).layout.unit_size as int),
                    )
                    &&& final(self).banks@ == old(self).banks@.update(bank as int, final(self).banks@[bank as int])
                },
                Err(e) => {
                    &&& final(self).banks == old(self).banks
                    &&& data@.len() < old(self).layout.unit_size ==> e@ == size_mismatch_message(
                        old(self).layout,
                        data@.len(),
                    )
                    &&& data@.len() >= old(self).layout.unit_size ==> e@ == bank_range_message(
                        old(self).chip,
                        old(self).layout,
                        bank as nat,
                    )
                },
            },
    {
        let unit = self.layout.unit_size;
        let keep = if unit < data.len() {
            unit
        } else {
            data.len()
        };
        let trimmed = vstd::slice::slice_subrange(data, 0, keep);
        let rom = match RomBank::from_slice(self.layout, label, trimmed) {
            Ok(rom) => rom,
            Err(e) => {
                return Err(e);
            },
        };
        assert(trimmed@ =~= data@.take(unit as int));
        self.set_bank(bank, rom)
    }

    /// Replaces bank `bank` with a ROM read from `source_path`, when it is
    /// exactly one bank long.
    pub fn replace_rom_file(&mut self, bank: usize, label: String, source_path: String, data: &[u8]) -> (result: Result<ReplaceStep, String>)
        requires
            old(self).layout.unit_size > 0,
            old(self).spec_bank_count() <= old(self).banks@.len(),
        ensures
            same_frame(*final(self), *old(self)),
            match result {
                Ok(ReplaceStep::Replaced) => {
                    &&& data@.len() == old(self).layout.unit_size
                    &&& bank < old(self).spec_bank_count()
                    &&& holds_rom(final(self).banks@[bank as int], label@, Some(source_path), data@.len(), data@)
                    &&& final(self).banks@ == old(self).banks@.update(bank as int, final(self).banks@[bank as int])
                },
                Ok(ReplaceStep::TooLarge) => {
                    &&& data@.len() > old(self).layout.unit_size
                    &&& final(self).banks == old(self).banks
                },
                Ok(ReplaceStep::TooSmall) => {
                    &&& data@.len() < old(self).layout.unit_size
                    &&& final(self).banks == old(self).banks
                },
                Err(e) => {
                    &&& data@.len() == old(self).layout.unit_size
                    &&& bank >= old(self).spec_bank_count()
                    &&& final(self).banks == old(self).banks
                    &&& e@ == bank_range_message(old(self).chip, old(self).layout, bank as nat)
                },
            },
    {
        let unit = self.layout.unit_size;
        if data.len() > unit {
            return Ok(ReplaceStep::TooLarge);
        }
        if data.len() < unit {
            return Ok(ReplaceStep::TooSmall);
        }
        let rom = match RomBank::from_source(self.layout, label, source_path, data) {
            Ok(rom) => rom,
            Err(e) => {
                return Err(e);
            },
        };
        match self.set_bank(bank, rom) {
            Ok(()) => Ok(ReplaceStep::Replaced),
            Err(e) => Err(e),
        }
    }
}

/// Number of banks a ROM of `len` bytes covers when spread over banks of `unit` bytes.
pub open spec fn pieces_needed(len: int, unit: int) -> int {
    len / unit + if len % unit == 0 {
        0int
    } else {
        1int
    }
}

/// Piece `i` of a ROM spread over banks of `unit` bytes, padded to a whole bank.
pub open spec fn spread_chunk(data: Seq<u8>, unit: nat, i: int, pad: u8) -> Seq<u8> {
    Seq::new(unit, |k: int| if i * unit + k < data.len() { data[i * unit + k] } else { pad })
}

/// Name of piece `i` of a spread ROM: the ROM's name, then "(part n)" from the second on.
pub open spec fn part_label(label: Seq<char>, i: int) -> Seq<char> {
    if i == 0 {
        label
    } else {
        label + " (part "@ + dec((i + 1) as nat) + ")"@
    }
}

/// Error text for spreading from a bank past the last bank.
pub open spec fn spread_target_message() -> Seq<char> {
    "Target bank is no longer valid"@
}

/// Error text for a ROM longer than the slot it should refill.
pub open spec fn slot_too_small_message(label: Seq<char>, got: nat, bank: nat, slot: nat, region: nat) -> Seq<char> {
    label + " is "@ + dec(got) + " bytes but slot "@ + dec(bank) + "."@ + dec(slot) + " holds "@ + dec(region)
        + " bytes"@
}

/// `data` with the slot at `start` of `region` bytes holding `content`, padded with `pad`.
pub open spec fn refilled(data: Seq<u8>, start: int, content: Seq<u8>, region: int, pad: u8) -> Seq<u8> {
    Seq::new(
        data.len(),
        |i: int|
            if start <= i < start + content.len() {
                content[i - start]
            } else if start + content.len() <= i < start + region {
                pad
            } else {
                data[i]
            },
    )
}

/// The slots of a bank after removing slot `index` by `policy`.
pub open spec fn slots_after_remove(slots: Seq<BankSlot>, index: int, policy: RemovePolicy) -> Seq<BankSlot> {
    match policy {
        RemovePolicy::Blank => slots.update(
            index,
            BankSlot { label: slots[index].label, source_path: None, len: slots[index].len, blank: true },
        ),
        RemovePolicy::Compact => slots.remove(index),
    }
}

/// The bank image after removing slot `index` by `policy`.
pub open spec fn data_after_remove(rom: RomBank, index: int, policy: RemovePolicy, pad: u8) -> Seq<u8> {
    let start = rom.spec_slot_start(index) as int;
    let len = rom.slots@[index].len as int;
    match policy {
        RemovePolicy::Blank => filled(rom.data@, start, start + len, pad),
        RemovePolicy::Compact => compacted(rom.data@, start, len, rom.spec_used() as int, pad),
    }
}

/// Every slot is blank.
pub open spec fn all_blank(slots: Seq<BankSlot>) -> bool {
    forall|i: int| 0 <= i < slots.len() ==> slots[i].blank
}

/// The slots once blank sub-slots behind an occupied first slot are folded away.
pub open spec fn collapsed(slots: Seq<BankSlot>) -> Seq<BankSlot> {
    if slots.len() > 1 && !slots[0].blank && (forall|i: int| 1 <= i < slots.len() ==> slots[i].blank) {
        slots.take(1)
    } else {
        slots
    }
}

/// Slot `index` lies inside the bank image.
pub proof fn lemma_slot_inside(rom: RomBank, index: int)
    requires
        0 <= index < rom.slots@.len(),
        rom.fits(),
    ensures
        rom.spec_slot_start(index) + rom.slots@[index].len <= rom.spec_used(),
        rom.spec_used() <= rom.data@.len(),
{
    lemma_slot_total_whole(rom.slots@);
    lemma_slot_total_step(rom.slots@, index);
    lemma_slot_total_prefix(rom.slots@, index + 1, rom.slots@.len() as int);
}

/// Piece `i` of a spread ROM starts inside the ROM.
pub proof fn lemma_piece_start(len: int, unit: int, i: int)
    requires
        unit > 0,
        len >= 0,
        0 <= i < pieces_needed(len, unit),
    ensures
        i * unit < len,
{
    vstd::arithmetic::div_mod::lemma_fundamental_div_mod(len, unit);
    let q = len / unit;
    let r = len % unit;
    if i < q {
        assert(i * unit <= (q - 1) * unit) by (nonlinear_arith)
            requires
                i <= q - 1,
                unit > 0,
        ;
        assert((q - 1) * unit == q * unit - unit) by (nonlinear_arith);
        assert(unit * q == q * unit) by (nonlinear_arith);
    } else {
        assert(i == q);
        assert(r != 0);
        assert(unit * q == q * unit) by (nonlinear_arith);
    }
}

/// A ROM that does not fill its last bank needs fewer whole banks than it has bytes.
pub proof fn lemma_whole_pieces_below(len: int, unit: int)
    requires
        unit > 0,
        len >= 0,
        len % unit != 0,
    ensures
        len / unit < len,
{
    vstd::arithmetic::div_mod::lemma_fundamental_div_mod(len, unit);
    assert(unit != 1);
    let q = len / unit;
    assert(unit * q >= 2 * q) by (nonlinear_arith)
        requires
            unit >= 2,
            q >= 0,
    ;
}

impl RomBank {
    /// The bytes of slot `index`.
    pub fn slot_bytes(&self, index: usize) -> (bytes: Vec<u8>)
        requires
            index < self.slots@.len(),
            self.fits(),
        ensures
            bytes@ == self.spec_slot_bytes(index as int),
    {
        let data_len = self.data.len();
        proof {
            lemma_slot_inside(*self, index as int);
        }
        let start = self.slot_start(index);
        let len = self.slots[index].len;
        let bytes = vstd::slice::slice_subrange(self.data.as_slice(), start, start + len);
        vstd::slice::slice_to_vec(bytes)
    }
}

impl ProjectImage {
    /// How far spreading a ROM of `len` bytes from bank `start` reaches: the
    /// number of banks written (as many pieces as banks are left) and the
    /// number of banks the ROM needs.
    pub fn spread_extent(&self, start: usize, len: usize) -> (extent: (usize, usize))
        requires
            self.layout.unit_size > 0,
            start < self.spec_bank_count(),
        ensures
            extent.1 == pieces_needed(len as int, self.layout.unit_size as int),
            extent.0 == (if extent.1 < self.spec_bank_count() - start {
                extent.1 as int
            } else {
                self.spec_bank_count() - start
            }),
    {
        let unit = self.layout.unit_size;
        let count = self.chip.bank_count(self.layout);
        let whole = len / unit;
        proof {
            if len % unit != 0 {
                lemma_whole_pieces_below(len as int, unit as int);
            }
        }
        let needed = if len % unit == 0 {
            whole
        } else {
            whole + 1
        };
        let available = count - start;
        let written = if needed < available {
            needed
        } else {
            available
        };
        (written, needed)
    }

    /// Spreads an oversized ROM over the banks from `start` on: piece `i` of
    /// the ROM, padded to a whole bank, replaces bank `start + i`, for as many
    /// pieces as there are banks left; the rest of the ROM is dropped.
    /// Returns the number of banks written and the number the ROM needed.
    pub fn spread_into_banks(&mut self, start: usize, label: String, data: &[u8]) -> (result: Result<(usize, usize), String>)
        requires
            old(self).layout.unit_size > 0,
            old(self).spec_bank_count() <= old(self).banks@.len(),
        ensures
            same_frame(*final(self), *old(self)),
            result is Ok <==> start < old(self).spec_bank_count(),
            match result {
                Ok((written, needed)) => {
                    let unit = old(self).layout.unit_size as int;
                    &&& needed == pieces_needed(data@.len() as int, unit)
                    &&& written == (if needed < old(self).spec_bank_count() - start {
                        needed as int
                    } else {
                        old(self).spec_bank_count() - start
                    })
                    &&& final(self).banks@.len() == old(self).banks@.len()
                    &&& forall|b: int|
                        0 <= b < old(self).banks@.len() ==> if start <= b < start + written {
                            holds_rom(
                                #[trigger] final(self).banks@[b],
                                part_label(label@, b - start),
                                None,
                                unit as nat,
                                spread_chunk(data@, unit as nat, b - start, old(self).pad_byte),
                            )
                        } else {
                            final(self).banks@[b] == old(self).banks@[b]
                        }
                },
                Err(e) => final(self).banks == old(self).banks && e@ == spread_target_message(),
            },
    {
        let unit = self.layout.unit_size;
        let count = self.chip.bank_count(self.layout);
        if start >= count {
            return Err(String::from_str("Target bank is no longer valid"));
        }
        let len = data.len();
        let (to_write, needed) = self.spread_extent(start, len);
        let pad = self.pad_byte;
        let mut i: usize = 0;
        while i < to_write
            invariant
                unit == self.layout.unit_size,
                unit > 0,
                count == self.spec_bank_count(),
                count <= self.banks@.len(),
                len == data@.len(),
                needed == pieces_needed(len as int, unit as int),
                start < count,
                to_write <= needed,
                start + to_write <= count,
                pad == self.pad_byte,
                same_frame(*self, *old(self)),
                i <= to_write,
                self.banks@.len() == old(self).banks@.len(),
                forall|b: int|
                    0 <= b < old(self).banks@.len() ==> if start <= b < start + i {
                        holds_rom(
                            #[trigger] self.banks@[b],
                            part_label(label@, b - start),
                            None,
                            unit as nat,
                            spread_chunk(data@, unit as nat, b - start, pad),
                        )
                    } else {
                        self.banks@[b] == old(self).banks@[b]
                    },
            decreases to_write - i,
        {
            proof {
                lemma_piece_start(len as int, unit as int, i as int);
                assert(i * unit <= usize::MAX);
            }
            let begin = i * unit;
            let end = if len - begin < unit {
                len
            } else {
                begin + unit
            };
            let mut chunk: Vec<u8> = Vec::new();
            let mut k = begin;
            while k < end
                invariant
                    begin <= k <= end <= len,
                    end - begin <= unit,
                    len == data@.len(),
                    chunk@ == data@.subrange(begin as int, k as int),
                decreases end - k,
            {
                chunk.push(data[k]);
                k += 1;
                assert(chunk@ =~= data@.subrange(begin as int, k as int));
            }
            while chunk.len() < unit
                invariant
                    end - begin <= chunk@.len() <= unit,
                    begin <= end <= len,
                    len == data@.len(),
                    forall|j: int|
                        0 <= j < chunk@.len() ==> chunk@[j] == (if j < end - begin {
                            data@[begin + j]
                        } else {
                            pad
                        }),
                decreases unit - chunk@.len(),
            {
                chunk.push(pad);
            }
            proof {
                assert forall|j: int| 0 <= j < unit implies chunk@[j] == spread_chunk(
                    data@,
                    unit as nat,
                    i as int,
                    pad,
                )[j] by {
                    if j < end - begin {
                    } else {
                        assert(begin + j >= end);
                        if end != len {
                            assert(end == begin + unit);
                        }
                    }
                }
                assert(chunk@ =~= spread_chunk(data@, unit as nat, i as int, pad));
            }
            let mut piece_label = label.clone();
            if i > 0 {
                piece_label.append(" (part ");
                push_dec(&mut piece_label, i + 1);
                piece_label.append(")");
            }
            assert(piece_label@ == part_label(label@, i as int));
            let rom = match RomBank::from_slice(self.layout, piece_label, chunk.as_slice()) {
                Ok(rom) => rom,
                Err(e) => {
                    return Err(e);
                },
            };
            let ghost before = self.banks@;
            match self.set_bank(start + i, rom) {
                Ok(()) => {},
                Err(e) => {
                    return Err(e);
                },
            }
            i += 1;
        }
        Ok((to_write, needed))
    }

    /// Loads a ROM into the fixed region of slot `slot` of bank `bank`: the
    /// ROM first, the pad byte after it to the end of the slot; the slot takes
    /// the ROM's name and source and is no longer blank.
    pub fn load_into_slot(
        &mut self,
        bank: usize,
        slot: usize,
        label: String,
        source_path: Option<String>,
        content: &[u8],
    ) -> (result: Result<(), String>)
        requires
            bank < old(self).banks@.len(),
            old(self).banks@[bank as int] is Some,
            slot < old(self).banks@[bank as int]->Some_0.slots@.len(),
            old(self).banks@[bank as int]->Some_0.fits(),
        ensures
            same_frame(*final(self), *old(self)),
            ({
                let rom = old(self).banks@[bank as int]->Some_0;
                let region = rom.slots@[slot as int].len;
                &&& result is Ok <==> 0 < content@.len() <= region
                &&& match result {
                    Ok(()) => {
                        &&& final(self).banks@ == old(self).banks@.update(bank as int, final(self).banks@[bank as int])
                        &&& final(self).banks@[bank as int] is Some
                        &&& final(self).banks@[bank as int]->Some_0.data@ == refilled(
                            rom.data@,
                            rom.spec_slot_start(slot as int) as int,
                            content@,
                            region as int,
                            old(self).pad_byte,
                        )
                        &&& final(self).banks@[bank as int]->Some_0.slots@ == rom.slots@.update(
                            slot as int,
                            BankSlot { label, source_path, len: region, blank: false },
                        )
                        &&& final(self).banks@[bank as int]->Some_0.remainder_label == rom.remainder_label
                    },
                    Err(e) => {
                        &&& final(self).banks == old(self).banks
                        &&& content@.len() == 0 ==> e@ == empty_rom_message()
                        &&& content@.len() > 0 ==> e@ == slot_too_small_message(
                            label@,
                            content@.len(),
                            bank as nat,
                            slot as nat,
                            region as nat,
                        )
                    },
                }
            }),
    {
        let ghost rom0 = self.banks@[bank as int]->Some_0;
        let (start, region) = match &self.banks[bank] {
            Some(rom) => {
                let data_len = rom.data.len();
                proof {
                    lemma_slot_inside(*rom, slot as int);
                }
                (rom.slot_start(slot), rom.slots[slot].len)
            },
            None => {
                return Err(String::new());
            },
        };
        if content.len() == 0 {
            return Err(String::from_str("ROM is empty"));
        }
        if content.len() > region {
            let mut e = label.clone();
            e.append(" is ");
            push_dec(&mut e, content.len());
            e.append(" bytes but slot ");
            push_dec(&mut e, bank);
            e.append(".");
            push_dec(&mut e, slot);
            e.append(" holds ");
            push_dec(&mut e, region);
            e.append(" bytes");
            return Err(e);
        }
        let pad = self.pad_byte;
        let ghost before = self.banks@;
        let entry = self.banks.remove(bank);
        let mut rom = match entry {
            Some(rom) => rom,
            None => {
                return Err(String::new());
            },
        };
        assert(rom == rom0);
        let n = content.len();
        let data_len = rom.data.len();
        let mut k: usize = 0;
        while k < region
            invariant
                start + region <= data_len,
                data_len == rom0.data@.len(),
                rom.data@.len() == data_len,
                rom.slots == rom0.slots,
                rom.remainder_label == rom0.remainder_label,
                n == content@.len(),
                n <= region,
                k <= region,
                forall|i: int|
                    0 <= i < data_len ==> rom.data@[i] == (if start <= i < start + k {
                        if i < start + n {
                            content@[i - start]
                        } else {
                            pad
                        }
                    } else {
                        rom0.data@[i]
                    }),
            decreases region - k,
        {
            let byte = if k < n {
                content[k]
            } else {
                pad
            };
            rom.data.set(start + k, byte);
            k += 1;
        }
        assert(rom.data@ =~= refilled(rom0.data@, start as int, content@, region as int, pad));
        rom.slots.set(slot, BankSlot { label, source_path, len: region, blank: false });
        self.banks.insert(bank, Some(rom));
        assert(self.banks@ =~= before.update(bank as int, self.banks@[bank as int]));
        Ok(())
    }

    /// Removes slot `slot` of bank `bank` by `policy`, then folds the bank:
    /// when every slot is blank the bank becomes empty. Returns whether there
    /// was such a slot (nothing changes otherwise).
    pub fn remove_bank_slot(&mut self, bank: usize, slot: usize, policy: RemovePolicy) -> (removed: bool)
        requires
            bank < old(self).banks@.len(),
            old(self).banks@[bank as int] matches Some(rom) ==> (slot < rom.slots@.len() ==> rom.fits()),
        ensures
            same_frame(*final(self), *old(self)),
            removed == (old(self).banks@[bank as int] matches Some(rom) && slot < rom.slots@.len()),
            !removed ==> final(self).banks == old(self).banks,
            removed ==> {
                let rom = old(self).banks@[bank as int]->Some_0;
                let slots = slots_after_remove(rom.slots@, slot as int, policy);
                &&& final(self).banks@ == old(self).banks@.update(bank as int, final(self).banks@[bank as int])
                &&& all_blank(slots) ==> final(self).banks@[bank as int] is None
                &&& !all_blank(slots) ==> {
                    &&& final(self).banks@[bank as int] is Some
                    &&& final(self).banks@[bank as int]->Some_0.data@ == data_after_remove(
                        rom,
                        slot as int,
                        policy,
                        old(self).pad_byte,
                    )
                    &&& final(self).banks@[bank as int]->Some_0.slots@ == collapsed(slots)
                    &&& final(self).banks@[bank as int]->Some_0.remainder_label == rom.remainder_label
                }
            },
    {
        let present = match &self.banks[bank] {
            Some(rom) => slot < rom.slots.len(),
            None => false,
        };
        if !present {
            return false;
        }
        let ghost before = self.banks@;
        let ghost rom0 = self.banks@[bank as int]->Some_0;
        let pad = self.pad_byte;
        let entry = self.banks.remove(bank);
        let mut rom = match entry {
            Some(rom) => rom,
            None => {
                return false;
            },
        };
        rom.remove_slot(slot, policy, pad);
        let ghost slots = rom.slots@;
        assert(slots =~= slots_after_remove(rom0.slots@, slot as int, policy));
        let unused = rom.collapse_if_unused();
        if unused {
            self.banks.insert(bank, None);
        } else {
            assert(rom.slots@ =~= collapsed(slots));
            self.banks.insert(bank, Some(rom));
        }
        assert(self.banks@ =~= before.update(bank as int, self.banks@[bank as int]));
        true
    }
}

} // verus!
