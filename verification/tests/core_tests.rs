use std::collections::HashMap;

use rom_builder::bank::{RemovePolicy, RomBank};
use rom_builder::catalog::{chips, layouts};
use rom_builder::image::ProjectImage;
use rom_builder::sidecar::{metadata_file_name, parse_slot_layout};
use rom_builder::table::{bank_rows, row_index_label, RowKind};

#[test]
fn chip_bank_counts_follow_layout_size() {
    assert_eq!(chips()[0].bank_count(layouts()[0]), 4);
    assert_eq!(chips()[1].bank_count(layouts()[0]), 32);
    assert_eq!(chips()[2].bank_count(layouts()[0]), 32);
    assert_eq!(chips()[0].bank_count(layouts()[1]), 1);
    assert_eq!(chips()[1].bank_count(layouts()[1]), 10);
}

#[test]
fn bank_ranges_are_linear() {
    let chip = chips()[0];
    let layout = layouts()[0];

    assert_eq!(chip.bank_range(layout, 0), Some(0x0000..0x4000));
    assert_eq!(chip.bank_range(layout, 1), Some(0x4000..0x8000));
    assert_eq!(chip.bank_range(layout, 3), Some(0xC000..0x10000));
    assert_eq!(chip.bank_range(layout, 4), None);
}

#[test]
fn export_is_chip_sized_and_padded() {
    let chip = chips()[0];
    let layout = layouts()[0];
    let mut image = ProjectImage::new(chip, layout);
    image.pad_byte = 0xAA;
    image
        .set_bank(
            1,
            RomBank::from_slice(layout, "test".to_owned(), &[0x11; 16 * 1024]).unwrap(),
        )
        .unwrap();

    let output = image.export_bytes();

    assert_eq!(output.len(), chip.capacity);
    assert_eq!(output[0], 0xAA);
    assert_eq!(output[layout.unit_size], 0x11);
    assert_eq!(output[layout.unit_size * 2], 0xAA);
}

#[test]
fn compact_remove_shifts_later_banks() {
    let chip = chips()[0];
    let layout = layouts()[0];
    let mut image = ProjectImage::new(chip, layout);
    image
        .set_bank(
            0,
            RomBank::from_slice(layout, "a".to_owned(), &[0x10; 16 * 1024]).unwrap(),
        )
        .unwrap();
    image
        .set_bank(
            1,
            RomBank::from_slice(layout, "b".to_owned(), &[0x20; 16 * 1024]).unwrap(),
        )
        .unwrap();

    image.remove_bank(0, RemovePolicy::Compact).unwrap();

    assert_eq!(image.banks[0].as_ref().unwrap().data[0], 0x20);
    assert!(image.banks[3].is_none());
}

#[test]
fn metadata_lists_rom_names() {
    let layout = layouts()[0];
    let mut image = ProjectImage::new(chips()[0], layout);
    image
        .set_bank(
            0,
            RomBank::from_slice(layout, "Diagnostics".to_owned(), &[0x42; 16 * 1024]).unwrap(),
        )
        .unwrap();

    let metadata = image.metadata_text("test.bin");

    assert!(metadata.contains("Diagnostics"));
    assert!(metadata.contains("bank 0"));
}

#[test]
fn partial_bank_pads_remainder() {
    let layout = layouts()[0]; // 16 KiB
    let mut rom =
        RomBank::from_partial(layout, "Tiny".to_owned(), &[0x11; 1000], 0xFF).unwrap();

    assert_eq!(rom.data.len(), layout.unit_size);
    assert_eq!(rom.used(), 1000);
    assert_eq!(rom.free(), layout.unit_size - 1000);
    assert_eq!(rom.data[999], 0x11);
    assert_eq!(rom.data[1000], 0xFF);
    assert_eq!(rom.slot_checksum16(0), 17_000);

    // Fill part of the free space with a second ROM -> a new slot.
    rom.add_into_free("More".to_owned(), None, &[0x22; 500])
        .unwrap();
    assert_eq!(rom.slots.len(), 2);
    assert_eq!(rom.used(), 1500);
    assert_eq!(rom.slot_start(1), 1000);
    assert_eq!(rom.data[1000], 0x22);
    assert_eq!(rom.data[1499], 0x22);
    assert_eq!(rom.data[1500], 0xFF);
    assert_eq!(rom.slot_checksum16(1), 17_000); // 0x22 * 500

    // A ROM larger than the bank is rejected.
    assert!(
        RomBank::from_partial(layout, "Big".to_owned(), &[0x00; 16 * 1024 + 1], 0xFF).is_err()
    );
    // A ROM larger than the remaining free space is rejected.
    assert!(rom
        .add_into_free("X".to_owned(), None, &[0x00; 16 * 1024])
        .is_err());
}

#[test]
fn remove_slot_shifts_and_pads() {
    let layout = layouts()[0];
    let mut rom = RomBank::from_partial(layout, "A".to_owned(), &[0x11; 1000], 0xFF).unwrap();
    rom.add_into_free("B".to_owned(), None, &[0x22; 500])
        .unwrap();
    rom.add_into_free("C".to_owned(), None, &[0x33; 200])
        .unwrap();
    assert_eq!(rom.used(), 1700);

    rom.remove_slot(1, RemovePolicy::Compact, 0xFF); // remove B; C shifts into its place

    assert_eq!(rom.slots.len(), 2);
    assert_eq!(rom.slots[0].label, "A");
    assert_eq!(rom.slots[1].label, "C");
    assert_eq!(rom.used(), 1200);
    assert_eq!(rom.data[999], 0x11);
    assert_eq!(rom.data[1000], 0x33);
    assert_eq!(rom.data[1199], 0x33);
    assert_eq!(rom.data[1200], 0xFF);
}

#[test]
fn remove_slot_blank_keeps_position() {
    let layout = layouts()[0];
    let mut rom = RomBank::from_partial(layout, "A".to_owned(), &[0x11; 1000], 0xFF).unwrap();
    rom.add_into_free("B".to_owned(), None, &[0x22; 500])
        .unwrap();
    rom.add_into_free("C".to_owned(), None, &[0x33; 200])
        .unwrap();

    rom.remove_slot(1, RemovePolicy::Blank, 0xFF); // blank B in place

    assert_eq!(rom.slots.len(), 3); // slot kept
    assert!(rom.slots[1].blank);
    assert_eq!(rom.used(), 1700); // occupied space retained
    assert_eq!(rom.data[1000], 0xFF); // B region blanked
    assert_eq!(rom.data[1499], 0xFF);
    assert_eq!(rom.data[1500], 0x33); // C unchanged in place
}

#[test]
fn duplicate_checksums_finds_repeats() {
    let chip = chips()[0];
    let layout = layouts()[0];
    let mut image = ProjectImage::new(chip, layout);
    image
        .set_bank(
            0,
            RomBank::from_slice(layout, "a".to_owned(), &[0x11; 16 * 1024]).unwrap(),
        )
        .unwrap();
    image
        .set_bank(
            1,
            RomBank::from_slice(layout, "b".to_owned(), &[0x11; 16 * 1024]).unwrap(),
        )
        .unwrap();
    image
        .set_bank(
            2,
            RomBank::from_slice(layout, "c".to_owned(), &[0x22; 16 * 1024]).unwrap(),
        )
        .unwrap();

    let duplicates = image.duplicate_checksums();
    let shared = image.banks[0].as_ref().unwrap().slot_checksum16(0);
    let unique = image.banks[2].as_ref().unwrap().slot_checksum16(0);
    assert!(duplicates.contains(&shared));
    assert!(!duplicates.contains(&unique));
}

#[test]
fn duplicate_detection_spans_sub_slots() {
    let chip = chips()[0];
    let layout = layouts()[0]; // 16 KiB
    let mut image = ProjectImage::new(chip, layout);

    // Bank 0: unique primary plus a sub-slot that matches bank 1's ROM.
    let mut bank0 = RomBank::from_partial(layout, "a".to_owned(), &[0x11; 4000], 0xFF).unwrap();
    bank0
        .add_into_free("dup".to_owned(), None, &[0x55; 2000])
        .unwrap();
    image.set_bank(0, bank0).unwrap();
    image
        .set_bank(
            1,
            RomBank::from_partial(layout, "b".to_owned(), &[0x55; 2000], 0xFF).unwrap(),
        )
        .unwrap();

    let duplicates = image.duplicate_checksums();
    // Both banks should be flagged: the match is between bank 0's sub-slot
    // and bank 1's primary slot.
    assert!(image.banks[0]
        .as_ref()
        .unwrap()
        .has_duplicate_slot(&duplicates));
    assert!(image.banks[1]
        .as_ref()
        .unwrap()
        .has_duplicate_slot(&duplicates));
    // Bank 0's primary content is unique.
    let primary = image.banks[0].as_ref().unwrap().slot_checksum16(0);
    assert!(!duplicates.contains(&primary));
}

#[test]
fn relayout_splits_content_into_smaller_banks() {
    let chip = chips()[0]; // W27C512, 64 KiB
    let big = layouts()
        .iter()
        .copied()
        .find(|layout| layout.unit_size == 32 * 1024)
        .unwrap();
    let small = layouts()[0]; // 16 KiB

    let mut image = ProjectImage::new(chip, big);
    image
        .set_bank(
            0,
            RomBank::from_slice(big, "a".to_owned(), &[0x11; 32 * 1024]).unwrap(),
        )
        .unwrap();
    assert_eq!(image.banks.len(), 2);

    image.relayout(small);

    assert_eq!(image.layout.unit_size, 16 * 1024);
    assert_eq!(image.banks.len(), 4);
    assert!(image.banks[0].is_some());
    assert!(image.banks[1].is_some());
    assert!(image.banks[2].is_none());
    assert!(image.banks[3].is_none());
    assert_eq!(image.banks[0].as_ref().unwrap().data[0], 0x11);
}

#[test]
fn chip_change_detects_and_clips_data_beyond_capacity() {
    let layout = layouts()[0]; // 16 KiB banks
    let big = chips()[1]; // AM29F040B, 32 banks
    let small = chips()[0]; // W27C512, 4 banks

    let mut image = ProjectImage::new(big, layout);
    image
        .set_bank(
            0,
            RomBank::from_slice(layout, "a".to_owned(), &[0x11; 16 * 1024]).unwrap(),
        )
        .unwrap();
    // Bank 10 is populated with a gap before it; count-based checks miss this.
    image
        .set_bank(
            10,
            RomBank::from_slice(layout, "b".to_owned(), &[0x22; 16 * 1024]).unwrap(),
        )
        .unwrap();

    assert!(image.chip_change_drops_data(small));
    assert_eq!(image.dropped_bank_count(small), 1);

    image.set_chip(small);
    assert_eq!(image.banks.len(), 4);
    assert!(image.banks[0].is_some());

    // A chip that still covers every populated bank drops nothing.
    let mut keepable = ProjectImage::new(big, layout);
    keepable
        .set_bank(
            3,
            RomBank::from_slice(layout, "c".to_owned(), &[0x33; 16 * 1024]).unwrap(),
        )
        .unwrap();
    assert!(!keepable.chip_change_drops_data(small));
}

#[test]
fn collapse_if_unused_folds_blank_slots() {
    let layout = layouts()[0];
    let mut rom = RomBank::from_partial(layout, "A".to_owned(), &[0x11; 1000], 0xFF).unwrap();
    rom.add_into_free("B".to_owned(), None, &[0x22; 500])
        .unwrap();

    // Blank the only sub-slot: primary stays, blank sub-slot folds into free.
    rom.remove_slot(1, RemovePolicy::Blank, 0xFF);
    assert!(!rom.collapse_if_unused());
    assert_eq!(rom.slots.len(), 1);
    assert_eq!(rom.slots[0].label, "A");
    assert_eq!(rom.used(), 1000);

    // Blank the primary too: now everything is unused.
    rom.remove_slot(0, RemovePolicy::Blank, 0xFF);
    assert!(rom.collapse_if_unused());
}

#[test]
fn slot_layout_round_trips_through_metadata() {
    let chip = chips()[0]; // 64 KiB
    let layout = layouts()[0]; // 16 KiB banks
    let mut image = ProjectImage::new(chip, layout);
    let mut rom =
        RomBank::from_partial(layout, "First".to_owned(), &[0x11; 1000], 0xFF).unwrap();
    rom.add_into_free("Second".to_owned(), None, &[0x22; 500])
        .unwrap();
    rom.remainder_label = "Spare".to_owned();
    image.set_bank(0, rom).unwrap();

    let data = image.export_bytes();
    let metadata = image.metadata_text("test.bin");
    let parsed = parse_slot_layout(&metadata);
    let (reimported, _warning) =
        ProjectImage::import_bytes_with(chip, layout, &data, 0xFF, &parsed).unwrap();

    let bank0 = reimported.banks[0].as_ref().unwrap();
    assert_eq!(bank0.slots.len(), 2);
    assert_eq!(bank0.slots[0].len, 1000);
    assert_eq!(bank0.slots[0].label, "First");
    assert_eq!(bank0.slots[1].len, 500);
    assert_eq!(bank0.slots[1].label, "Second");
    assert_eq!(bank0.remainder_label, "Spare");
    assert_eq!(bank0.data[0], 0x11);
    assert_eq!(bank0.data[1000], 0x22);
}

#[test]
fn import_warns_only_when_remainder_has_data() {
    // W27C512 (64 KiB) + QL 48K layout = 1 full bank, 16 KiB remainder.
    let chip = chips()[0];
    let layout = layouts()[1];
    let pad = 0xFF;
    assert!(chip.remainder(layout) > 0);

    // Bank populated, remainder all padding: lossless, no warning.
    let mut data = vec![pad; chip.capacity];
    data[..layout.unit_size].fill(0x11);
    let (image, warning) =
        ProjectImage::import_bytes_with(chip, layout, &data, pad, &HashMap::new()).unwrap();
    assert_eq!(image.populated_count(), 1);
    assert!(warning.is_none());
    assert_eq!(
        image.export_bytes(),
        data,
        "padding-only tail must round-trip"
    );

    // Real data in the remainder region: bank still imported, but warn.
    data[layout.unit_size] = 0x42;
    let (image, warning) =
        ProjectImage::import_bytes_with(chip, layout, &data, pad, &HashMap::new()).unwrap();
    assert_eq!(image.populated_count(), 1);
    assert!(warning.is_some());
}

#[test]
fn sidecar_file_name_replaces_the_extension() {
    assert_eq!(metadata_file_name("game.bin"), "game.metadata.txt");
    assert_eq!(metadata_file_name("set.v2.rom"), "set.v2.metadata.txt");
    assert_eq!(metadata_file_name("image"), "image.metadata.txt");
    assert_eq!(metadata_file_name(".hidden"), ".hidden.metadata.txt");
    assert_eq!(metadata_file_name("trailing."), "trailing.metadata.txt");
    assert_eq!(metadata_file_name(""), ".metadata.txt");
}

#[test]
fn relayout_keeps_the_whole_image_when_banks_divide_the_chip() {
    let chip = chips()[0]; // W27C512, 64 KiB
    let small = layouts()[0]; // 16 KiB
    let big = layouts()
        .iter()
        .copied()
        .find(|layout| layout.unit_size == 32 * 1024)
        .unwrap();
    let mut image = ProjectImage::new(chip, small);
    image
        .set_bank(1, RomBank::from_slice(small, "a".to_owned(), &[0x5A; 16 * 1024]).unwrap())
        .unwrap();
    image
        .set_bank(3, RomBank::from_slice(small, "b".to_owned(), &[0x33; 16 * 1024]).unwrap())
        .unwrap();
    let before = image.export_bytes();

    image.relayout(big);

    assert_eq!(image.banks.len(), 2);
    assert_eq!(image.export_bytes(), before);
}

#[test]
fn relayout_pads_data_beyond_the_last_whole_bank() {
    let chip = chips()[0]; // W27C512, 64 KiB
    let small = layouts()[0]; // 16 KiB
    let odd = layouts()
        .iter()
        .copied()
        .find(|layout| layout.unit_size == 48 * 1024)
        .unwrap();
    let mut image = ProjectImage::new(chip, small);
    image
        .set_bank(0, RomBank::from_slice(small, "a".to_owned(), &[0x11; 16 * 1024]).unwrap())
        .unwrap();
    image
        .set_bank(3, RomBank::from_slice(small, "b".to_owned(), &[0x22; 16 * 1024]).unwrap())
        .unwrap();
    let before = image.export_bytes();

    image.relayout(odd);

    let after = image.export_bytes();
    assert_eq!(image.banks.len(), 1);
    assert_eq!(after[..48 * 1024], before[..48 * 1024]);
    assert!(after[48 * 1024..].iter().all(|byte| *byte == image.pad_byte));
    assert_ne!(after, before);
}

#[test]
fn bank_table_rows_cover_slots_and_free_space() {
    let chip = chips()[0]; // W27C512, 64 KiB
    let layout = layouts()[0]; // 16 KiB
    let mut image = ProjectImage::new(chip, layout);
    image
        .set_bank(
            2,
            RomBank::from_partial(layout, "half".to_owned(), &[0x42; 4 * 1024], image.pad_byte).unwrap(),
        )
        .unwrap();

    let unused = bank_rows(&image, 1);
    assert_eq!(unused.len(), 1);
    assert_eq!(unused[0].kind, RowKind::Unused);
    assert_eq!(unused[0].start, 0x4000);
    assert_eq!(unused[0].len, 0x4000);
    assert_eq!(row_index_label(1, &unused[0]), "1");
    assert_eq!(unused[0].range_label(), "0x04000-0x07FFF");

    let rows = bank_rows(&image, 2);
    assert_eq!(rows.len(), 2);
    assert_eq!(rows[0].kind, RowKind::Slot);
    assert_eq!((rows[0].start, rows[0].len), (0x8000, 0x1000));
    assert_eq!(row_index_label(2, &rows[0]), "2");
    assert_eq!(rows[0].range_label(), "0x08000-0x08FFF");
    assert_eq!(rows[1].kind, RowKind::Free);
    assert_eq!((rows[1].slot, rows[1].start, rows[1].len), (1, 0x9000, 0x3000));
    assert_eq!(row_index_label(2, &rows[1]), "2.1");
    assert_eq!(rows[1].range_label(), "0x09000-0x0BFFF");
}
