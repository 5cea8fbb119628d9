use rom_builder::bank::{RemovePolicy, RomBank};
use rom_builder::catalog::{chips, layouts};
use rom_builder::changes::{chip_index_of, layout_index_of, ChipChange, LayoutChange};
use rom_builder::choice::{
    chip_for_layout, chip_is_eligible, import_chip_index, matching_chip_indices, ChipChoice,
};
use rom_builder::image::ProjectImage;
use rom_builder::menus::{
    chip_matches, eligible_chip_sizes, first_eligible_chip_of_size, first_layout_of_size, ic_choices,
    layout_sizes, platform_listed, platform_matches,
};
use rom_builder::paging::{bank_map_page, hex_page_back, hex_page_forward, hex_window, HexWindow, MapPage};
use rom_builder::placement::{AddStep, PlaceStep, ReplaceStep};

const UNIT: usize = 16 * 1024;

fn empty_image() -> ProjectImage {
    ProjectImage::new(chips()[0], layouts()[0])
}

#[test]
fn eligibility_follows_the_sizing_options() {
    let big = chips()[0];
    let small = chips()[3];
    assert!(chip_is_eligible(big, UNIT, true, false));
    assert!(chip_is_eligible(big, UNIT, false, true));
    assert!(!chip_is_eligible(big, UNIT, false, false));
    assert!(chip_is_eligible(chips()[6], UNIT, false, false));
    assert!(!chip_is_eligible(small, UNIT, true, true));
}

#[test]
fn chip_for_layout_keeps_or_switches() {
    assert_eq!(chip_for_layout(0, UNIT, true, false), ChipChoice::Keep);
    assert_eq!(chip_for_layout(0, UNIT, false, false), ChipChoice::Switch(6));
    assert_eq!(chip_for_layout(3, UNIT, true, false), ChipChoice::Switch(6));
    assert_eq!(chip_for_layout(3, 48 * 1024, true, true), ChipChoice::Switch(0));
    assert_eq!(chip_for_layout(3, 48 * 1024, false, false), ChipChoice::NoneFits);
    assert_eq!(chip_for_layout(0, 8 * 1024 * 1024, true, false), ChipChoice::NoneFits);
}

#[test]
fn matching_chips_fill_the_file_exactly() {
    assert_eq!(matching_chip_indices(64 * 1024), vec![0, 8]);
    assert_eq!(matching_chip_indices(12345), Vec::<usize>::new());
    assert_eq!(import_chip_index(8, 64 * 1024), Some(8));
    assert_eq!(import_chip_index(1, 64 * 1024), Some(0));
    assert_eq!(import_chip_index(0, 12345), None);
}

#[test]
fn bank_map_pages_hold_four_rows() {
    assert_eq!(
        bank_map_page(32, 0),
        MapPage { columns: 12, per_page: 48, total_pages: 1, page: 0, start: 0, end: 32 }
    );
    assert_eq!(
        bank_map_page(4, 5),
        MapPage { columns: 4, per_page: 16, total_pages: 1, page: 0, start: 0, end: 4 }
    );
    assert_eq!(
        bank_map_page(100, 1),
        MapPage { columns: 12, per_page: 48, total_pages: 3, page: 1, start: 48, end: 96 }
    );
    assert_eq!(
        bank_map_page(100, 7),
        MapPage { columns: 12, per_page: 48, total_pages: 3, page: 2, start: 96, end: 100 }
    );
    assert_eq!(
        bank_map_page(0, 3),
        MapPage { columns: 4, per_page: 16, total_pages: 1, page: 0, start: 0, end: 0 }
    );
}

#[test]
fn hex_preview_pages_stay_inside_the_bank() {
    assert_eq!(hex_window(UNIT, 0), HexWindow { start: 0, len: 512, last_start: 15872 });
    assert_eq!(hex_window(1000, 700), HexWindow { start: 512, len: 488, last_start: 512 });
    assert_eq!(hex_window(0, 10), HexWindow { start: 0, len: 0, last_start: 0 });
    assert_eq!(hex_page_back(300), 0);
    assert_eq!(hex_page_back(1024), 512);
    assert_eq!(hex_page_forward(0, 512), 512);
    assert_eq!(hex_page_forward(512, 512), 512);
    assert_eq!(hex_page_forward(0, 15872), 512);
}

#[test]
fn add_rom_file_fills_the_first_empty_bank() {
    let mut image = empty_image();
    assert_eq!(image.add_rom_file("A".to_owned(), &[1; UNIT]), Ok(AddStep::Added(0)));
    assert_eq!(image.add_rom_file("B".to_owned(), &[2; 1000]), Ok(AddStep::Added(1)));
    let bank = image.banks[1].as_ref().unwrap();
    assert_eq!(bank.data.len(), UNIT);
    assert_eq!(bank.data[999], 2);
    assert_eq!(bank.data[1000], 0xFF);
    assert_eq!(bank.slots[0].len, 1000);
    assert_eq!(bank.slots[0].label, "B");

    assert_eq!(image.add_rom_file("C".to_owned(), &[3; UNIT + 1]), Ok(AddStep::Oversized(2)));
    assert!(image.banks[2].is_none());
    assert_eq!(image.add_rom_file("E".to_owned(), &[]), Err("ROM is empty".to_owned()));

    image.add_rom_file("D".to_owned(), &[4; UNIT]).unwrap();
    image.add_rom_file("F".to_owned(), &[5; UNIT]).unwrap();
    assert_eq!(
        image.add_rom_file("G".to_owned(), &[6; UNIT]),
        Err("No empty banks remain for W27C512".to_owned())
    );
    assert_eq!(
        image.add_rom_file("H".to_owned(), &[6; 2 * UNIT]),
        Err("No empty banks remain for W27C512".to_owned())
    );
}

#[test]
fn place_rom_file_targets_one_bank() {
    let mut image = empty_image();
    assert_eq!(image.place_rom_file(3, "P".to_owned(), &[4; UNIT]), Ok(PlaceStep::Placed));
    assert_eq!(image.banks[3].as_ref().unwrap().slots[0].label, "P");
    assert_eq!(image.place_rom_file(2, "Q".to_owned(), &[4; 10]), Ok(PlaceStep::Placed));
    assert_eq!(image.banks[2].as_ref().unwrap().data[10], 0xFF);
    assert_eq!(image.place_rom_file(1, "X".to_owned(), &[5; UNIT + 7]), Ok(PlaceStep::Oversized));
    assert!(image.banks[1].is_none());
    assert_eq!(
        image.place_rom_file(9, "P".to_owned(), &[4; UNIT]),
        Err("Bank 9 is outside the valid range 0..3 for W27C512 using ZX Spectrum 16K".to_owned())
    );
    assert_eq!(image.place_rom_file(0, "E".to_owned(), &[]), Err("ROM is empty".to_owned()));
}

#[test]
fn trim_keeps_the_first_bank_of_bytes() {
    let mut image = empty_image();
    let data: Vec<u8> = (0..20000u32).map(|i| (i % 251) as u8).collect();
    assert_eq!(image.trim_into_bank(2, "T".to_owned(), &data), Ok(()));
    let bank = image.banks[2].as_ref().unwrap();
    assert_eq!(bank.data, data[..UNIT].to_vec());
    assert_eq!(bank.slots[0].len, UNIT);
    assert_eq!(
        image.trim_into_bank(1, "S".to_owned(), &[0; 100]),
        Err("ZX Spectrum 16K ROM must be exactly 16384 bytes, got 100 bytes".to_owned())
    );
}

#[test]
fn spread_fills_consecutive_banks_in_order() {
    let mut image = empty_image();
    let data: Vec<u8> = (0..40000u32).map(|i| (i % 253) as u8).collect();
    assert_eq!(image.spread_into_banks(1, "Big".to_owned(), &data), Ok((3, 3)));
    assert!(image.banks[0].is_none());
    assert_eq!(image.banks[1].as_ref().unwrap().slots[0].label, "Big");
    assert_eq!(image.banks[2].as_ref().unwrap().slots[0].label, "Big (part 2)");
    assert_eq!(image.banks[3].as_ref().unwrap().slots[0].label, "Big (part 3)");
    assert_eq!(image.banks[2].as_ref().unwrap().data, data[UNIT..2 * UNIT].to_vec());
    let last = &image.banks[3].as_ref().unwrap().data;
    assert_eq!(last[..40000 - 2 * UNIT].to_vec(), data[2 * UNIT..].to_vec());
    assert!(last[40000 - 2 * UNIT..].iter().all(|b| *b == 0xFF));

    assert_eq!(image.spread_into_banks(3, "Tail".to_owned(), &data), Ok((1, 3)));
    assert_eq!(image.banks[3].as_ref().unwrap().slots[0].label, "Tail");
    assert_eq!(
        image.spread_into_banks(4, "Gone".to_owned(), &data),
        Err("Target bank is no longer valid".to_owned())
    );
}

#[test]
fn replace_needs_exactly_one_bank() {
    let mut image = empty_image();
    assert_eq!(
        image.replace_rom_file(0, "R".to_owned(), "/roms/r.bin".to_owned(), &[9; UNIT]),
        Ok(ReplaceStep::Replaced)
    );
    let slot = &image.banks[0].as_ref().unwrap().slots[0];
    assert_eq!(slot.source_path, Some("/roms/r.bin".to_owned()));
    assert_eq!(
        image.replace_rom_file(1, "R".to_owned(), "r".to_owned(), &[9; UNIT + 1]),
        Ok(ReplaceStep::TooLarge)
    );
    assert_eq!(
        image.replace_rom_file(1, "R".to_owned(), "r".to_owned(), &[9; 5]),
        Ok(ReplaceStep::TooSmall)
    );
    assert!(image.banks[1].is_none());
}

fn two_slot_image() -> ProjectImage {
    let layout = layouts()[0];
    let mut image = empty_image();
    let mut rom = RomBank::from_partial(layout, "Diag".to_owned(), &[0x11; 1000], 0xFF).unwrap();
    rom.add_into_free("Patch".to_owned(), None, &[0x22; 500]).unwrap();
    image.set_bank(0, rom).unwrap();
    image
}

#[test]
fn load_into_slot_refills_the_fixed_region() {
    let mut image = two_slot_image();
    assert_eq!(
        image.load_into_slot(0, 1, "New".to_owned(), Some("/r/new.bin".to_owned()), &[7; 200]),
        Ok(())
    );
    let bank = image.banks[0].as_ref().unwrap();
    let bytes = bank.slot_bytes(1);
    assert_eq!(bytes.len(), 500);
    assert!(bytes[..200].iter().all(|b| *b == 7));
    assert!(bytes[200..].iter().all(|b| *b == 0xFF));
    assert_eq!(bank.slots[1].label, "New");
    assert_eq!(bank.slots[1].len, 500);
    assert_eq!(bank.slot_bytes(0), vec![0x11; 1000]);

    assert_eq!(
        image.load_into_slot(0, 1, "Big".to_owned(), None, &[7; 600]),
        Err("Big is 600 bytes but slot 0.1 holds 500 bytes".to_owned())
    );
    assert_eq!(
        image.load_into_slot(0, 1, "Empty".to_owned(), None, &[]),
        Err("ROM is empty".to_owned())
    );
}

#[test]
fn remove_bank_slot_folds_an_emptied_bank() {
    let mut image = two_slot_image();
    assert!(image.remove_bank_slot(0, 1, RemovePolicy::Compact));
    assert_eq!(image.banks[0].as_ref().unwrap().slots.len(), 1);
    assert!(image.remove_bank_slot(0, 0, RemovePolicy::Blank));
    assert!(image.banks[0].is_none());
    assert!(!image.remove_bank_slot(0, 0, RemovePolicy::Blank));
    assert!(!image.remove_bank_slot(1, 0, RemovePolicy::Blank));
}

#[test]
fn blank_removal_keeps_other_slots_where_they_were() {
    let mut image = two_slot_image();
    assert!(image.remove_bank_slot(0, 0, RemovePolicy::Blank));
    let bank = image.banks[0].as_ref().unwrap();
    assert_eq!(bank.slot_start(1), 1000);
    assert_eq!(bank.slot_bytes(1), vec![0x22; 500]);
    assert_eq!(bank.slot_bytes(0), vec![0xFF; 1000]);
}

#[test]
fn compact_removal_moves_later_slots_down() {
    let mut image = two_slot_image();
    assert!(image.remove_bank_slot(0, 0, RemovePolicy::Compact));
    let bank = image.banks[0].as_ref().unwrap();
    assert_eq!(bank.slots.len(), 1);
    assert_eq!(bank.slot_start(0), 0);
    assert_eq!(bank.slot_bytes(0), vec![0x22; 500]);
    assert!(bank.data[500..1500].iter().all(|b| *b == 0xFF));
}

#[test]
fn add_into_free_places_the_rom_after_the_last_slot() {
    let layout = layouts()[0];
    let mut rom = RomBank::from_partial(layout, "Diag".to_owned(), &[0x11; 1000], 0xFF).unwrap();
    rom.add_into_free("Patch".to_owned(), None, &[0x22; 500]).unwrap();
    assert_eq!(rom.slot_start(1), 1000);
    assert_eq!(rom.slot_bytes(1), vec![0x22; 500]);
    assert_eq!(rom.slot_bytes(0), vec![0x11; 1000]);
}

#[test]
fn layout_change_depends_on_size_and_content() {
    let mut image = empty_image();
    assert_eq!(image.layout_change(layouts()[0]), LayoutChange::Unchanged);
    assert_eq!(image.layout_change(layouts()[4]), LayoutChange::Relabel);
    assert_eq!(image.layout_change(layouts()[2]), LayoutChange::Direct);
    image.add_rom_file("A".to_owned(), &[1; UNIT]).unwrap();
    assert_eq!(image.layout_change(layouts()[2]), LayoutChange::Split);
    assert_eq!(image.layout_change(layouts()[1]), LayoutChange::Consolidate);
}

#[test]
fn chip_change_asks_before_dropping_banks() {
    let mut image = empty_image();
    assert_eq!(image.chip_change(chips()[0]), ChipChange::Unchanged);
    image.place_rom_file(0, "A".to_owned(), &[1; UNIT]).unwrap();
    assert_eq!(image.chip_change(chips()[6]), ChipChange::Commit);
    image.place_rom_file(2, "B".to_owned(), &[1; UNIT]).unwrap();
    assert_eq!(image.chip_change(chips()[6]), ChipChange::Confirm);
    assert_eq!(image.chip_change(chips()[1]), ChipChange::Commit);
}

#[test]
fn extract_names_come_from_slots_or_the_chip() {
    let image = two_slot_image();
    assert_eq!(image.bank_file_name(0), "Diag.bin");
    assert_eq!(image.bank_file_name(3), "w27c512_bank_3.bin");
    assert_eq!(image.slot_file_name(0, 1), "Patch.bin");
    assert_eq!(image.slot_file_name(0, 5), "w27c512_bank_0_slot_5.bin");
    assert_eq!(image.slot_file_name(2, 0), "w27c512_bank_2_slot_0.bin");
}

#[test]
fn catalog_positions_are_found_again() {
    assert_eq!(chip_index_of(chips()[5]), 5);
    assert_eq!(layout_index_of(layouts()[7]), 7);
    let mut odd = chips()[5];
    odd.capacity = 3;
    assert_eq!(chip_index_of(odd), 0);
}

#[test]
fn menus_offer_distinct_sizes_in_order() {
    assert_eq!(
        layout_sizes(),
        vec![4096, 8192, 12288, 16384, 32768, 49152, 65536, 131072, 262144, 524288]
    );
    assert_eq!(first_layout_of_size(8192), Some(3));
    assert_eq!(first_layout_of_size(100), None);
    assert_eq!(
        eligible_chip_sizes(UNIT, true, false),
        vec![16384, 32768, 65536, 131072, 262144, 524288, 1048576, 4194304]
    );
    assert_eq!(eligible_chip_sizes(UNIT, false, false), vec![16384]);
    assert_eq!(first_eligible_chip_of_size(32768, UNIT, true, false), Some(7));
    assert_eq!(first_eligible_chip_of_size(32768, UNIT, false, false), None);
}

#[test]
fn ic_picker_lists_eligible_chips_smallest_first() {
    assert_eq!(ic_choices(UNIT, false, false), vec![6]);
    assert_eq!(ic_choices(64 * 1024, true, false), vec![0, 8, 9, 13, 19, 20, 22, 10, 14, 21, 1, 2, 11, 15, 25, 12, 23]);
}

#[test]
fn picker_filters_ignore_case_and_blanks() {
    let spectrum = layouts()[0];
    assert!(platform_matches(spectrum, ""));
    assert!(platform_matches(spectrum, "  SPECTRUM "));
    assert!(platform_matches(spectrum, "16k"));
    assert!(!platform_matches(spectrum, "amiga"));
    assert!(platform_listed(spectrum));
    assert!(!platform_listed(layouts()[38]));
    assert!(chip_matches(chips()[1], "am29"));
    assert!(chip_matches(chips()[1], "512 kib"));
    assert!(!chip_matches(chips()[1], "sst"));
    assert!(chip_matches(chips()[1], "   "));
}

#[test]
fn export_name_comes_from_the_chip() {
    assert_eq!(empty_image().export_file_name(), "w27c512_image.bin");
}

#[test]
fn consistency_checks_catch_broken_banks() {
    let layout = layouts()[0];
    let mut image = two_slot_image();
    assert!(image.is_consistent());
    assert!(image.banks[0].as_ref().unwrap().slots_fit());

    let mut rom = RomBank::from_partial(layout, "X".to_owned(), &[1; 100], 0xFF).unwrap();
    rom.slots[0].len = UNIT + 1;
    assert!(!rom.slots_fit());
    image.banks[1] = Some(rom);
    assert!(!image.is_consistent());

    let mut short = two_slot_image();
    short.banks[0].as_mut().unwrap().data.truncate(10);
    assert!(!short.is_consistent());

    let mut missing = empty_image();
    missing.banks.pop();
    assert!(!missing.is_consistent());
}

#[test]
fn error_texts_name_the_problem() {
    let layout = layouts()[0];
    let chip = chips()[0];

    let mut rom = RomBank::from_partial(layout, "Diag".to_owned(), &[1; 16000], 0xFF).unwrap();
    assert_eq!(
        rom.add_into_free("More".to_owned(), None, &[2; 500]),
        Err("ROM is 500 bytes but only 384 bytes are free in this bank".to_owned())
    );
    assert_eq!(
        RomBank::from_partial(layout, "Big".to_owned(), &[1; UNIT + 1], 0xFF).unwrap_err(),
        "ZX Spectrum 16K ROM must be at most 16384 bytes, got 16385 bytes"
    );

    let mut image = empty_image();
    image.add_rom_file("A".to_owned(), &[1; UNIT]).unwrap();
    assert_eq!(
        image.change_layout(layouts()[2]),
        Err("Create a new image before changing layout size".to_owned())
    );

    assert_eq!(
        ProjectImage::import_bytes_with(chip, layout, &[0u8; 10], 0xFF, &std::collections::HashMap::new())
            .unwrap_err(),
        "image is 10 bytes, but W27C512 requires 65536 bytes"
    );

    let parsed = rom_builder::sidecar::parse_slot_layout("slot|0|0|20000|0|Huge\n");
    assert_eq!(
        ProjectImage::import_bytes_with(chip, layout, &vec![0u8; chip.capacity], 0xFF, &parsed)
            .unwrap_err(),
        "slot layout needs 20000 bytes but the bank is only 16384 bytes"
    );
}

#[test]
fn trailing_data_warning_names_the_range() {
    let chip = chips()[0];
    let layout = layouts()[1];
    let mut data = vec![0xFF; chip.capacity];
    data[49152] = 1;
    let (_, warning) =
        ProjectImage::import_bytes_with(chip, layout, &data, 0xFF, &std::collections::HashMap::new()).unwrap();
    assert_eq!(
        warning,
        Some("16384 trailing byte(s) at 0x0C000-0x0FFFF fall beyond the last full Sinclair QL 48K bank and were not imported; they will be padded on export.".to_owned())
    );
}
