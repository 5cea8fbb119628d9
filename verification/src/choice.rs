//! Choosing a target chip: which chips suit a bank size, which one to switch
//! to when the current one no longer does, and which match an image file.
use vstd::prelude::*;
use crate::catalog::{chip_table, chips, Chip};

verus! {

/// Whether `chip` may be chosen for banks of `layout_size` bytes: it holds at
/// least one bank, and in strict single-ROM mode (neither a multi-ROM image
/// nor larger chips allowed) exactly one.
pub open spec fn chip_eligible(chip: Chip, layout_size: int, multi_rom_image: bool, allow_larger_chip: bool) -> bool {
    &&& chip.capacity >= layout_size
    &&& (multi_rom_image || allow_larger_chip || chip.capacity == layout_size)
}

/// A chip that can replace an ineligible one: of exactly `size` bytes when
/// `strict`, otherwise of at least `size` bytes.
pub open spec fn chip_candidate(chip: Chip, size: int, strict: bool) -> bool {
    if strict {
        chip.capacity == size
    } else {
        chip.capacity >= size
    }
}

/// Entry `i` of `table` is the chip to switch to: the first candidate of the
/// smallest capacity.
pub open spec fn picked_chip(table: Seq<Chip>, size: int, strict: bool, i: int) -> bool {
    &&& 0 <= i < table.len()
    &&& chip_candidate(table[i], size, strict)
    &&& forall|j: int|
        0 <= j < i && chip_candidate(#[trigger] table[j], size, strict) ==> table[j].capacity > table[i].capacity
    &&& forall|j: int|
        i < j < table.len() && chip_candidate(#[trigger] table[j], size, strict) ==> table[i].capacity
            <= table[j].capacity
}

/// What to do with the selected chip after the bank size or the sizing
/// options changed.
#[derive(Clone, Copy, Debug, PartialEq, Eq, Structural)]
pub enum ChipChoice {
    /// The selected chip is still eligible.
    Keep,
    /// Switch to the catalog chip at this index.
    Switch(usize),
    /// No catalog chip can hold a bank of this size.
    NoneFits,
}

/// Whether `chip` may be chosen for banks of `layout_size` bytes.
pub fn chip_is_eligible(chip: Chip, layout_size: usize, multi_rom_image: bool, allow_larger_chip: bool) -> (eligible: bool)
    ensures
        eligible == chip_eligible(chip, layout_size as int, multi_rom_image, allow_larger_chip),
{
    if chip.capacity < layout_size {
        return false;
    }
    if multi_rom_image || allow_larger_chip {
        true
    } else {
        chip.capacity == layout_size
    }
}

/// The chip to use once banks are `layout_size` bytes: keep the selected
/// catalog chip while it is eligible, else switch to the smallest chip that
/// holds one bank (in strict single-ROM mode, the first of exactly one bank).
pub fn chip_for_layout(selected_chip: usize, layout_size: usize, multi_rom_image: bool, allow_larger_chip: bool) -> (choice: ChipChoice)
    requires
        selected_chip < chip_table().len(),
    ensures
        (choice is Keep) <==> chip_eligible(
            chip_table()[selected_chip as int],
            layout_size as int,
            multi_rom_image,
            allow_larger_chip,
        ),
        choice matches ChipChoice::Switch(i) ==> picked_chip(
            chip_table(),
            layout_size as int,
            !multi_rom_image && !allow_larger_chip,
            i as int,
        ),
        choice is NoneFits ==> forall|j: int|
            0 <= j < chip_table().len() ==> !chip_candidate(
                #[trigger] chip_table()[j],
                layout_size as int,
                !multi_rom_image && !allow_larger_chip,
            ),
{
    let table = chips();
    if chip_is_eligible(table[selected_chip], layout_size, multi_rom_image, allow_larger_chip) {
        return ChipChoice::Keep;
    }
    let strict = !multi_rom_image && !allow_larger_chip;
    let ghost t = chip_table();
    let mut best: Option<usize> = None;
    let mut j: usize = 0;
    while j < table.len()
        invariant
            table@ == t,
            t == chip_table(),
            j <= t.len(),
            match best {
                None => forall|k: int| 0 <= k < j ==> !chip_candidate(#[trigger] t[k], layout_size as int, strict),
                Some(b) => {
                    &&& b < j
                    &&& chip_candidate(t[b as int], layout_size as int, strict)
                    &&& forall|k: int|
                        0 <= k < b && chip_candidate(#[trigger] t[k], layout_size as int, strict)
                            ==> t[k].capacity > t[b as int].capacity
                    &&& forall|k: int|
                        b < k < j && chip_candidate(#[trigger] t[k], layout_size as int, strict)
                            ==> t[b as int].capacity <= t[k].capacity
                },
            },
        decreases t.len() - j,
    {
        let capacity = table[j].capacity;
        let candidate = if strict {
            capacity == layout_size
        } else {
            capacity >= layout_size
        };
        if candidate {
            match best {
                None => {
                    best = Some(j);
                },
                Some(b) => {
                    if capacity < table[b].capacity {
                        best = Some(j);
                    }
                },
            }
        }
        j += 1;
    }
    match best {
        Some(b) => ChipChoice::Switch(b),
        None => ChipChoice::NoneFits,
    }
}

/// The indices of the catalog chips in `table` of exactly `size` bytes, in order.
pub open spec fn matching_chips(table: Seq<Chip>, size: int) -> Seq<usize>
    decreases table.len(),
{
    if table.len() == 0 {
        Seq::empty()
    } else {
        matching_chips(table.drop_last(), size) + if table.last().capacity == size {
            seq![(table.len() - 1) as usize]
        } else {
            Seq::<usize>::empty()
        }
    }
}

/// The catalog chips an image file of `size` bytes fills exactly.
pub fn matching_chip_indices(size: usize) -> (indices: Vec<usize>)
    ensures
        indices@ == matching_chips(chip_table(), size as int),
{
    let table = chips();
    let mut indices: Vec<usize> = Vec::new();
    let mut j: usize = 0;
    while j < table.len()
        invariant
            table@ == chip_table(),
            j <= table@.len(),
            indices@ == matching_chips(table@.take(j as int), size as int),
        decreases table@.len() - j,
    {
        assert(table@.take(j + 1).drop_last() =~= table@.take(j as int));
        if table[j].capacity == size {
            indices.push(j);
        }
        j += 1;
    }
    assert(table@.take(j as int) =~= table@);
    indices
}

/// The chip to import an image file of `size` bytes with: the selected chip
/// when it matches the size, else the first that does; `None` when no chip does.
pub fn import_chip_index(selected_chip: usize, size: usize) -> (chosen: Option<usize>)
    ensures
        chosen == (if matching_chips(chip_table(), size as int).len() == 0 {
            None
        } else if matching_chips(chip_table(), size as int).contains(selected_chip) {
            Some(selected_chip)
        } else {
            Some(matching_chips(chip_table(), size as int)[0])
        }),
{
    let matching = matching_chip_indices(size);
    if matching.len() == 0 {
        return None;
    }
    let mut k: usize = 0;
    while k < matching.len()
        invariant
            matching@ == matching_chips(chip_table(), size as int),
            k <= matching@.len(),
            forall|i: int| 0 <= i < k ==> matching@[i] != selected_chip,
        decreases matching@.len() - k,
    {
        if matching[k] == selected_chip {
            assert(matching@[k as int] == selected_chip);
            assert(matching@.contains(selected_chip));
            return Some(selected_chip);
        }
        k += 1;
    }
    Some(matching[0])
}

} // verus!
