//! The catalogs of ROM size profiles and target chips, and the bank grid
//! that a profile draws on a chip.
use vstd::prelude::*;
use crate::text::str_equal;

verus! {

/// A ROM size profile: every bank of an image is one unit of this size.
#[derive(Clone, Copy, Debug, PartialEq, Eq)]
pub struct RomLayout {
    pub id: &'static str,
    pub name: &'static str,
    pub unit_size: usize,
}

/// A target memory IC.
#[derive(Clone, Copy, Debug, PartialEq, Eq)]
pub struct Chip {
    pub id: &'static str,
    pub name: &'static str,
    pub capacity: usize,
    pub pad_byte: u8,
}

/// `bank * unit + unit` stays within the chip when `bank` is below the bank count.
pub proof fn lemma_bank_within_chip(bank: nat, unit: nat, capacity: nat)
    requires
        unit > 0,
        bank < capacity / unit,
    ensures
        bank * unit + unit <= capacity,
        bank * unit + unit == (bank + 1) * unit,
{
    vstd::arithmetic::div_mod::lemma_fundamental_div_mod(capacity as int, unit as int);
    vstd::arithmetic::mul::lemma_mul_inequality((bank + 1) as int, (capacity / unit) as int, unit as int);
    vstd::arithmetic::mul::lemma_mul_is_distributive_add(unit as int, bank as int, 1);
    vstd::arithmetic::mul::lemma_mul_is_commutative(unit as int, bank as int);
    vstd::arithmetic::mul::lemma_mul_is_commutative(unit as int, (bank + 1) as int);
    vstd::arithmetic::mul::lemma_mul_is_commutative(unit as int, (capacity / unit) as int);
}

impl Chip {
    /// Number of whole banks of `layout` on the chip.
    pub open spec fn spec_bank_count(self, layout: RomLayout) -> nat {
        (self.capacity / layout.unit_size) as nat
    }

    /// Bytes past the last whole bank.
    pub open spec fn spec_remainder(self, layout: RomLayout) -> nat {
        (self.capacity % layout.unit_size) as nat
    }

    /// Number of whole banks of `layout` that fit on the chip.
    pub fn bank_count(self, layout: RomLayout) -> (count: usize)
        requires
            layout.unit_size > 0,
        ensures
            count == self.spec_bank_count(layout),
            count * layout.unit_size + self.spec_remainder(layout) == self.capacity,
    {
        proof {
            vstd::arithmetic::div_mod::lemma_fundamental_div_mod(self.capacity as int, layout.unit_size as int);
            vstd::arithmetic::mul::lemma_mul_is_commutative(layout.unit_size as int, (self.capacity / layout.unit_size) as int);
        }
        self.capacity / layout.unit_size
    }

    /// Bytes of the chip that no whole bank covers.
    pub fn remainder(self, layout: RomLayout) -> (rest: usize)
        requires
            layout.unit_size > 0,
        ensures
            rest == self.spec_remainder(layout),
            rest < layout.unit_size,
    {
        self.capacity % layout.unit_size
    }

    /// The byte range of bank `bank`, or `None` past the last whole bank.
    /// Banks follow one another linearly from offset 0.
    pub fn bank_range(self, layout: RomLayout, bank: usize) -> (range: Option<std::ops::Range<usize>>)
        requires
            layout.unit_size > 0,
        ensures
            match range {
                None => bank >= self.spec_bank_count(layout),
                Some(r) => {
                    &&& bank < self.spec_bank_count(layout)
                    &&& r.start == bank * layout.unit_size
                    &&& r.end == r.start + layout.unit_size
                    &&& r.end <= self.capacity
                },
            },
    {
        if bank >= self.bank_count(layout) {
            return None;
        }
        proof {
            lemma_bank_within_chip(bank as nat, layout.unit_size as nat, self.capacity as nat);
        }
        let start = bank * layout.unit_size;
        Some(start..start + layout.unit_size)
    }
}

/// The ROM size profiles offered for laying out an image.
pub open spec fn layout_table() -> Seq<RomLayout> {
    seq![
        RomLayout { id: "zx-spectrum-16k", name: "ZX Spectrum 16K", unit_size: (16 * 1024) as usize },
        RomLayout { id: "sinclair-ql-48k", name: "Sinclair QL 48K", unit_size: (48 * 1024) as usize },
        RomLayout { id: "zx80", name: "ZX80 ROM", unit_size: (4 * 1024) as usize },
        RomLayout { id: "zx81", name: "ZX81 ROM", unit_size: (8 * 1024) as usize },
        RomLayout { id: "zx-spectrum-128-rom0", name: "ZX Spectrum 128 ROM 0", unit_size: (16 * 1024) as usize },
        RomLayout { id: "zx-spectrum-128-rom1", name: "ZX Spectrum 128 ROM 1", unit_size: (16 * 1024) as usize },
        RomLayout { id: "zx-spectrum-plus3-rom0", name: "ZX Spectrum +3 ROM 0", unit_size: (16 * 1024) as usize },
        RomLayout { id: "zx-spectrum-plus3-rom1", name: "ZX Spectrum +3 ROM 1", unit_size: (16 * 1024) as usize },
        RomLayout { id: "zx-spectrum-plus3-rom2", name: "ZX Spectrum +3 ROM 2", unit_size: (16 * 1024) as usize },
        RomLayout { id: "zx-spectrum-plus3-rom3", name: "ZX Spectrum +3 ROM 3", unit_size: (16 * 1024) as usize },
        RomLayout { id: "jupiter-ace", name: "Jupiter Ace ROM", unit_size: (8 * 1024) as usize },
        RomLayout { id: "cpc-464-os", name: "CPC 464 OS", unit_size: (16 * 1024) as usize },
        RomLayout { id: "cpc-464-basic", name: "CPC 464 BASIC", unit_size: (16 * 1024) as usize },
        RomLayout { id: "cpc-6128-os", name: "CPC 6128 OS", unit_size: (16 * 1024) as usize },
        RomLayout { id: "cpc-6128-basic", name: "CPC 6128 BASIC", unit_size: (16 * 1024) as usize },
        RomLayout { id: "cpc-6128-amsdos", name: "CPC 6128 AMSDOS", unit_size: (16 * 1024) as usize },
        RomLayout { id: "bbc-micro-b-os", name: "BBC Micro B OS", unit_size: (16 * 1024) as usize },
        RomLayout { id: "bbc-micro-b-basic", name: "BBC Micro B BASIC", unit_size: (16 * 1024) as usize },
        RomLayout { id: "acorn-electron", name: "Acorn Electron ROM", unit_size: (32 * 1024) as usize },
        RomLayout { id: "vic-20-basic", name: "VIC-20 BASIC", unit_size: (8 * 1024) as usize },
        RomLayout { id: "vic-20-kernal", name: "VIC-20 KERNAL", unit_size: (8 * 1024) as usize },
        RomLayout { id: "vic-20-char", name: "VIC-20 Character", unit_size: (4 * 1024) as usize },
        RomLayout { id: "c64-basic", name: "C64 BASIC", unit_size: (8 * 1024) as usize },
        RomLayout { id: "c64-kernal", name: "C64 KERNAL", unit_size: (8 * 1024) as usize },
        RomLayout { id: "c64-char", name: "C64 Character", unit_size: (4 * 1024) as usize },
        RomLayout { id: "cbm-plus4-basic", name: "Plus/4 BASIC", unit_size: (16 * 1024) as usize },
        RomLayout { id: "cbm-plus4-kernal", name: "Plus/4 KERNAL", unit_size: (16 * 1024) as usize },
        RomLayout { id: "atari-xl-xe-os", name: "Atari XL/XE OS", unit_size: (16 * 1024) as usize },
        RomLayout { id: "atari-xl-xe-basic", name: "Atari XL/XE BASIC", unit_size: (8 * 1024) as usize },
        RomLayout { id: "atari-400-800-basic", name: "Atari 400/800 BASIC", unit_size: (8 * 1024) as usize },
        RomLayout { id: "apple-2-plus", name: "Apple II+ ROM", unit_size: (12 * 1024) as usize },
        RomLayout { id: "apple-2e", name: "Apple IIe ROM", unit_size: (16 * 1024) as usize },
        RomLayout { id: "msx1", name: "MSX1 Main ROM", unit_size: (32 * 1024) as usize },
        RomLayout { id: "oric-atmos", name: "Oric Atmos ROM", unit_size: (16 * 1024) as usize },
        RomLayout { id: "dragon-32", name: "Dragon 32 ROM", unit_size: (16 * 1024) as usize },
        RomLayout { id: "trs80-coco-color", name: "CoCo Color BASIC", unit_size: (8 * 1024) as usize },
        RomLayout { id: "trs80-coco-ext", name: "CoCo Extended BASIC", unit_size: (8 * 1024) as usize },
        RomLayout { id: "trs80-model-1", name: "TRS-80 Model I ROM", unit_size: (12 * 1024) as usize },
        RomLayout { id: "rom-64k", name: "64 KiB ROM", unit_size: (64 * 1024) as usize },
        RomLayout { id: "rom-128k", name: "128 KiB ROM", unit_size: (128 * 1024) as usize },
        RomLayout { id: "rom-256k", name: "256 KiB ROM", unit_size: (256 * 1024) as usize },
        RomLayout { id: "rom-512k", name: "512 KiB ROM", unit_size: (512 * 1024) as usize },
    ]
}

/// The target chips offered.
pub open spec fn chip_table() -> Seq<Chip> {
    seq![
        Chip { id: "W27C512", name: "W27C512 - 64 KiB", capacity: (64 * 1024) as usize, pad_byte: 0xFF },
        Chip { id: "AM29F040B", name: "AM29F040B - 512 KiB", capacity: (512 * 1024) as usize, pad_byte: 0xFF },
        Chip { id: "SST39SF040", name: "SST39SF040 - 512 KiB", capacity: (512 * 1024) as usize, pad_byte: 0xFF },
        Chip { id: "2716", name: "2716 - 2 KiB", capacity: (2 * 1024) as usize, pad_byte: 0xFF },
        Chip { id: "2732", name: "2732 - 4 KiB", capacity: (4 * 1024) as usize, pad_byte: 0xFF },
        Chip { id: "2764", name: "2764 - 8 KiB", capacity: (8 * 1024) as usize, pad_byte: 0xFF },
        Chip { id: "27128", name: "27128 - 16 KiB", capacity: (16 * 1024) as usize, pad_byte: 0xFF },
        Chip { id: "27256", name: "27256 - 32 KiB", capacity: (32 * 1024) as usize, pad_byte: 0xFF },
        Chip { id: "27512", name: "27512 - 64 KiB", capacity: (64 * 1024) as usize, pad_byte: 0xFF },
        Chip { id: "27C010", name: "27C010 - 128 KiB", capacity: (128 * 1024) as usize, pad_byte: 0xFF },
        Chip { id: "27C020", name: "27C020 - 256 KiB", capacity: (256 * 1024) as usize, pad_byte: 0xFF },
        Chip { id: "27C040", name: "27C040 - 512 KiB", capacity: (512 * 1024) as usize, pad_byte: 0xFF },
        Chip { id: "27C080", name: "27C080 - 1 MiB", capacity: (1024 * 1024) as usize, pad_byte: 0xFF },
        Chip { id: "W27C010", name: "W27C010 - 128 KiB", capacity: (128 * 1024) as usize, pad_byte: 0xFF },
        Chip { id: "W27C020", name: "W27C020 - 256 KiB", capacity: (256 * 1024) as usize, pad_byte: 0xFF },
        Chip { id: "W27C040", name: "W27C040 - 512 KiB", capacity: (512 * 1024) as usize, pad_byte: 0xFF },
        Chip { id: "28C16", name: "28C16 - 2 KiB", capacity: (2 * 1024) as usize, pad_byte: 0xFF },
        Chip { id: "28C64", name: "28C64 - 8 KiB", capacity: (8 * 1024) as usize, pad_byte: 0xFF },
        Chip { id: "AT28C256", name: "AT28C256 - 32 KiB", capacity: (32 * 1024) as usize, pad_byte: 0xFF },
        Chip { id: "AT28C010", name: "AT28C010 - 128 KiB", capacity: (128 * 1024) as usize, pad_byte: 0xFF },
        Chip { id: "SST39SF010", name: "SST39SF010 - 128 KiB", capacity: (128 * 1024) as usize, pad_byte: 0xFF },
        Chip { id: "SST39SF020", name: "SST39SF020 - 256 KiB", capacity: (256 * 1024) as usize, pad_byte: 0xFF },
        Chip { id: "Am29F010", name: "Am29F010 - 128 KiB", capacity: (128 * 1024) as usize, pad_byte: 0xFF },
        Chip { id: "Am29F032B", name: "Am29F032B - 4 MiB", capacity: (4 * 1024 * 1024) as usize, pad_byte: 0xFF },
        Chip { id: "AT29C256", name: "AT29C256 - 32 KiB", capacity: (32 * 1024) as usize, pad_byte: 0xFF },
        Chip { id: "AT29C040", name: "AT29C040 - 512 KiB", capacity: (512 * 1024) as usize, pad_byte: 0xFF },
    ]
}

/// The ROM size profiles, in catalog order.
pub fn layouts() -> (table: [RomLayout; 42])
    ensures
        table@ == layout_table(),
{
    let table = [
        RomLayout { id: "zx-spectrum-16k", name: "ZX Spectrum 16K", unit_size: 16 * 1024 },
        RomLayout { id: "sinclair-ql-48k", name: "Sinclair QL 48K", unit_size: 48 * 1024 },
        RomLayout { id: "zx80", name: "ZX80 ROM", unit_size: 4 * 1024 },
        RomLayout { id: "zx81", name: "ZX81 ROM", unit_size: 8 * 1024 },
        RomLayout { id: "zx-spectrum-128-rom0", name: "ZX Spectrum 128 ROM 0", unit_size: 16 * 1024 },
        RomLayout { id: "zx-spectrum-128-rom1", name: "ZX Spectrum 128 ROM 1", unit_size: 16 * 1024 },
        RomLayout { id: "zx-spectrum-plus3-rom0", name: "ZX Spectrum +3 ROM 0", unit_size: 16 * 1024 },
        RomLayout { id: "zx-spectrum-plus3-rom1", name: "ZX Spectrum +3 ROM 1", unit_size: 16 * 1024 },
        RomLayout { id: "zx-spectrum-plus3-rom2", name: "ZX Spectrum +3 ROM 2", unit_size: 16 * 1024 },
        RomLayout { id: "zx-spectrum-plus3-rom3", name: "ZX Spectrum +3 ROM 3", unit_size: 16 * 1024 },
        RomLayout { id: "jupiter-ace", name: "Jupiter Ace ROM", unit_size: 8 * 1024 },
        RomLayout { id: "cpc-464-os", name: "CPC 464 OS", unit_size: 16 * 1024 },
        RomLayout { id: "cpc-464-basic", name: "CPC 464 BASIC", unit_size: 16 * 1024 },
        RomLayout { id: "cpc-6128-os", name: "CPC 6128 OS", unit_size: 16 * 1024 },
        RomLayout { id: "cpc-6128-basic", name: "CPC 6128 BASIC", unit_size: 16 * 1024 },
        RomLayout { id: "cpc-6128-amsdos", name: "CPC 6128 AMSDOS", unit_size: 16 * 1024 },
        RomLayout { id: "bbc-micro-b-os", name: "BBC Micro B OS", unit_size: 16 * 1024 },
        RomLayout { id: "bbc-micro-b-basic", name: "BBC Micro B BASIC", unit_size: 16 * 1024 },
        RomLayout { id: "acorn-electron", name: "Acorn Electron ROM", unit_size: 32 * 1024 },
        RomLayout { id: "vic-20-basic", name: "VIC-20 BASIC", unit_size: 8 * 1024 },
        RomLayout { id: "vic-20-kernal", name: "VIC-20 KERNAL", unit_size: 8 * 1024 },
        RomLayout { id: "vic-20-char", name: "VIC-20 Character", unit_size: 4 * 1024 },
        RomLayout { id: "c64-basic", name: "C64 BASIC", unit_size: 8 * 1024 },
        RomLayout { id: "c64-kernal", name: "C64 KERNAL", unit_size: 8 * 1024 },
        RomLayout { id: "c64-char", name: "C64 Character", unit_size: 4 * 1024 },
        RomLayout { id: "cbm-plus4-basic", name: "Plus/4 BASIC", unit_size: 16 * 1024 },
        RomLayout { id: "cbm-plus4-kernal", name: "Plus/4 KERNAL", unit_size: 16 * 1024 },
        RomLayout { id: "atari-xl-xe-os", name: "Atari XL/XE OS", unit_size: 16 * 1024 },
        RomLayout { id: "atari-xl-xe-basic", name: "Atari XL/XE BASIC", unit_size: 8 * 1024 },
        RomLayout { id: "atari-400-800-basic", name: "Atari 400/800 BASIC", unit_size: 8 * 1024 },
        RomLayout { id: "apple-2-plus", name: "Apple II+ ROM", unit_size: 12 * 1024 },
        RomLayout { id: "apple-2e", name: "Apple IIe ROM", unit_size: 16 * 1024 },
        RomLayout { id: "msx1", name: "MSX1 Main ROM", unit_size: 32 * 1024 },
        RomLayout { id: "oric-atmos", name: "Oric Atmos ROM", unit_size: 16 * 1024 },
        RomLayout { id: "dragon-32", name: "Dragon 32 ROM", unit_size: 16 * 1024 },
        RomLayout { id: "trs80-coco-color", name: "CoCo Color BASIC", unit_size: 8 * 1024 },
        RomLayout { id: "trs80-coco-ext", name: "CoCo Extended BASIC", unit_size: 8 * 1024 },
        RomLayout { id: "trs80-model-1", name: "TRS-80 Model I ROM", unit_size: 12 * 1024 },
        RomLayout { id: "rom-64k", name: "64 KiB ROM", unit_size: 64 * 1024 },
        RomLayout { id: "rom-128k", name: "128 KiB ROM", unit_size: 128 * 1024 },
        RomLayout { id: "rom-256k", name: "256 KiB ROM", unit_size: 256 * 1024 },
        RomLayout { id: "rom-512k", name: "512 KiB ROM", unit_size: 512 * 1024 },
    ];
    assert(table@ =~= layout_table());
    table
}

/// The target chips, in catalog order.
pub fn chips() -> (table: [Chip; 26])
    ensures
        table@ == chip_table(),
{
    let table = [
        Chip { id: "W27C512", name: "W27C512 - 64 KiB", capacity: 64 * 1024, pad_byte: 0xFF },
        Chip { id: "AM29F040B", name: "AM29F040B - 512 KiB", capacity: 512 * 1024, pad_byte: 0xFF },
        Chip { id: "SST39SF040", name: "SST39SF040 - 512 KiB", capacity: 512 * 1024, pad_byte: 0xFF },
        Chip { id: "2716", name: "2716 - 2 KiB", capacity: 2 * 1024, pad_byte: 0xFF },
        Chip { id: "2732", name: "2732 - 4 KiB", capacity: 4 * 1024, pad_byte: 0xFF },
        Chip { id: "2764", name: "2764 - 8 KiB", capacity: 8 * 1024, pad_byte: 0xFF },
        Chip { id: "27128", name: "27128 - 16 KiB", capacity: 16 * 1024, pad_byte: 0xFF },
        Chip { id: "27256", name: "27256 - 32 KiB", capacity: 32 * 1024, pad_byte: 0xFF },
        Chip { id: "27512", name: "27512 - 64 KiB", capacity: 64 * 1024, pad_byte: 0xFF },
        Chip { id: "27C010", name: "27C010 - 128 KiB", capacity: 128 * 1024, pad_byte: 0xFF },
        Chip { id: "27C020", name: "27C020 - 256 KiB", capacity: 256 * 1024, pad_byte: 0xFF },
        Chip { id: "27C040", name: "27C040 - 512 KiB", capacity: 512 * 1024, pad_byte: 0xFF },
        Chip { id: "27C080", name: "27C080 - 1 MiB", capacity: 1024 * 1024, pad_byte: 0xFF },
        Chip { id: "W27C010", name: "W27C010 - 128 KiB", capacity: 128 * 1024, pad_byte: 0xFF },
        Chip { id: "W27C020", name: "W27C020 - 256 KiB", capacity: 256 * 1024, pad_byte: 0xFF },
        Chip { id: "W27C040", name: "W27C040 - 512 KiB", capacity: 512 * 1024, pad_byte: 0xFF },
        Chip { id: "28C16", name: "28C16 - 2 KiB", capacity: 2 * 1024, pad_byte: 0xFF },
        Chip { id: "28C64", name: "28C64 - 8 KiB", capacity: 8 * 1024, pad_byte: 0xFF },
        Chip { id: "AT28C256", name: "AT28C256 - 32 KiB", capacity: 32 * 1024, pad_byte: 0xFF },
        Chip { id: "AT28C010", name: "AT28C010 - 128 KiB", capacity: 128 * 1024, pad_byte: 0xFF },
        Chip { id: "SST39SF010", name: "SST39SF010 - 128 KiB", capacity: 128 * 1024, pad_byte: 0xFF },
        Chip { id: "SST39SF020", name: "SST39SF020 - 256 KiB", capacity: 256 * 1024, pad_byte: 0xFF },
        Chip { id: "Am29F010", name: "Am29F010 - 128 KiB", capacity: 128 * 1024, pad_byte: 0xFF },
        Chip { id: "Am29F032B", name: "Am29F032B - 4 MiB", capacity: 4 * 1024 * 1024, pad_byte: 0xFF },
        Chip { id: "AT29C256", name: "AT29C256 - 32 KiB", capacity: 32 * 1024, pad_byte: 0xFF },
        Chip { id: "AT29C040", name: "AT29C040 - 512 KiB", capacity: 512 * 1024, pad_byte: 0xFF },
    ];
    assert(table@ =~= chip_table());
    table
}

/// The first entry of `table` whose id is `id`.
pub open spec fn find_chip(table: Seq<Chip>, id: Seq<char>) -> Option<Chip>
    decreases table.len(),
{
    if table.len() == 0 {
        None
    } else if table[0].id@ == id {
        Some(table[0])
    } else {
        find_chip(table.drop_first(), id)
    }
}

/// The first entry of `table` whose id is `id`.
pub open spec fn find_layout(table: Seq<RomLayout>, id: Seq<char>) -> Option<RomLayout>
    decreases table.len(),
{
    if table.len() == 0 {
        None
    } else if table[0].id@ == id {
        Some(table[0])
    } else {
        find_layout(table.drop_first(), id)
    }
}

/// The catalog chip whose id is `id`.
pub fn chip_by_id(id: &str) -> (found: Option<Chip>)
    ensures
        found == find_chip(chip_table(), id@),
{
    let table = chips();
    assert(table@.skip(0) =~= table@);
    let mut i: usize = 0;
    while i < table.len()
        invariant
            i <= table@.len(),
            table@ == chip_table(),
            find_chip(table@.skip(i as int), id@) == find_chip(chip_table(), id@),
        decreases table@.len() - i,
    {
        assert(table@.skip(i as int).drop_first() =~= table@.skip(i + 1));
        if str_equal(table[i].id, id) {
            return Some(table[i]);
        }
        i += 1;
    }
    None
}

/// The catalog layout whose id is `id`.
pub fn layout_by_id(id: &str) -> (found: Option<RomLayout>)
    ensures
        found == find_layout(layout_table(), id@),
{
    let table = layouts();
    assert(table@.skip(0) =~= table@);
    let mut i: usize = 0;
    while i < table.len()
        invariant
            i <= table@.len(),
            table@ == layout_table(),
            find_layout(table@.skip(i as int), id@) == find_layout(layout_table(), id@),
        decreases table@.len() - i,
    {
        assert(table@.skip(i as int).drop_first() =~= table@.skip(i + 1));
        if str_equal(table[i].id, id) {
            return Some(table[i]);
        }
        i += 1;
    }
    None
}

} // verus!
