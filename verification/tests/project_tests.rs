use rom_builder::archive::{open_project_archive, project_archive, read_bank_data};
use rom_builder::bank::{RemovePolicy, RomBank};
use rom_builder::catalog::{chip_by_id, chips, layout_by_id, layouts};
use rom_builder::image::ProjectImage;
use rom_builder::project::{
    bank_binary_name, project_file, project_from_file, remove_policy_from_id, remove_policy_id,
    suggested_name, ProjectSettings,
};

fn sample() -> (ProjectImage, ProjectSettings) {
    let chip = chips()[1];
    let layout = layouts()[0];
    let mut image = ProjectImage::new(chip, layout);
    image.pad_byte = 0xEE;
    let mut rom = RomBank::from_partial(layout, "Diag".to_owned(), &[0x11; 4000], image.pad_byte).unwrap();
    rom.add_into_free("Patch".to_owned(), None, &[0x22; 600]).unwrap();
    rom.remainder_label = "Spare".to_owned();
    image.set_bank(2, rom).unwrap();
    let settings = ProjectSettings {
        remove_policy: RemovePolicy::Compact,
        multi_rom_image: false,
        allow_larger_chip: true,
        layout_by_size: false,
    };
    (image, settings)
}

fn stored_data(image: &ProjectImage, file: &rom_builder::project::ProjectFile) -> Vec<Result<Vec<u8>, String>> {
    file.banks
        .iter()
        .map(|entry| Ok(image.banks[entry.index].as_ref().unwrap().data.clone()))
        .collect()
}

#[test]
fn project_round_trips_through_its_record() {
    let (image, settings) = sample();
    let file = project_file(&image, &settings);
    assert_eq!(file.version, 1);
    assert_eq!(file.chip_id, "AM29F040B");
    assert_eq!(file.layout_by, "platform");
    assert_eq!(file.remove_policy, "compact");
    assert_eq!(file.banks.len(), 1);
    assert_eq!(file.banks[0].binary, "banks/bank_002.bin");

    let data = stored_data(&image, &file);
    let loaded = project_from_file(&file, &data).unwrap();

    assert_eq!(loaded.image.chip.id, image.chip.id);
    assert_eq!(loaded.image.layout.id, image.layout.id);
    assert_eq!(loaded.image.pad_byte, 0xEE);
    assert_eq!(loaded.image.export_bytes(), image.export_bytes());

    let bank = loaded.image.banks[2].as_ref().unwrap();
    assert_eq!(bank.slots.len(), 2);
    assert_eq!(bank.slots[0].label, "Diag");
    assert_eq!(bank.slots[0].len, 4000);
    assert_eq!(bank.slots[1].label, "Patch");
    assert_eq!(bank.remainder_label, "Spare");

    assert_eq!(loaded.settings.remove_policy, RemovePolicy::Compact);
    assert!(!loaded.settings.multi_rom_image);
    assert!(loaded.settings.allow_larger_chip);
    assert!(!loaded.settings.layout_by_size);
}

#[test]
fn loading_rejects_unknown_ids_and_wrong_sizes() {
    let (image, settings) = sample();
    let mut file = project_file(&image, &settings);
    let data = stored_data(&image, &file);

    let mut bad_chip = file.clone();
    bad_chip.chip_id = "nope".to_owned();
    assert_eq!(project_from_file(&bad_chip, &data).unwrap_err(), "Unknown chip 'nope'");

    let mut bad_layout = file.clone();
    bad_layout.layout_id = "odd".to_owned();
    assert_eq!(project_from_file(&bad_layout, &data).unwrap_err(), "Unknown layout 'odd'");

    let short = vec![Ok(vec![0u8; 10])];
    assert_eq!(
        project_from_file(&file, &short).unwrap_err(),
        "Bank 2 is 10 bytes but ZX Spectrum 16K expects 16384 bytes"
    );

    let missing = vec![Err("Missing bank data banks/bank_002.bin".to_owned())];
    assert_eq!(
        project_from_file(&file, &missing).unwrap_err(),
        "Missing bank data banks/bank_002.bin"
    );

    file.banks[0].index = 999;
    let loaded = project_from_file(&file, &missing).unwrap();
    assert!(loaded.image.banks.iter().all(|bank| bank.is_none()));
}

#[test]
fn names_and_ids_of_projects() {
    assert_eq!(bank_binary_name(2), "banks/bank_002.bin");
    assert_eq!(bank_binary_name(1234), "banks/bank_1234.bin");
    let (image, _) = sample();
    assert_eq!(suggested_name(&image), "am29f040b_project.romproj");
    assert_eq!(remove_policy_id(RemovePolicy::Blank), "blank");
    assert_eq!(remove_policy_id(RemovePolicy::Compact), "compact");
    assert_eq!(remove_policy_from_id("compact"), RemovePolicy::Compact);
    assert_eq!(remove_policy_from_id("blank"), RemovePolicy::Blank);
    assert_eq!(remove_policy_from_id("other"), RemovePolicy::Blank);
}

#[test]
fn catalog_lookup_by_id() {
    assert_eq!(chip_by_id("27C080").map(|chip| chip.capacity), Some(1024 * 1024));
    assert_eq!(chip_by_id("27c080"), None);
    assert_eq!(layout_by_id("zx81").map(|layout| layout.unit_size), Some(8 * 1024));
    assert_eq!(layout_by_id("nothing"), None);
}

#[test]
fn project_archive_reads_back_what_was_saved() {
    let (image, settings) = sample();
    let file = project_file(&image, &settings);
    let bytes = project_archive(&image, "record text", "sample.romproj").unwrap();

    let (mut archive, text) = open_project_archive(bytes, "sample.romproj").unwrap();
    assert_eq!(text, "record text");

    let data = read_bank_data(&mut archive, &file);
    assert_eq!(data.len(), 1);
    assert_eq!(data[0].as_ref().unwrap(), &image.banks[2].as_ref().unwrap().data);

    let loaded = project_from_file(&file, &data).unwrap();
    assert_eq!(loaded.image.export_bytes(), image.export_bytes());
    assert_eq!(loaded.image.banks[2].as_ref().unwrap().slots[1].label, "Patch");
}

#[test]
fn project_archive_reports_what_it_cannot_read() {
    let err = open_project_archive(vec![1, 2, 3], "bad.romproj").err().unwrap();
    assert!(err.starts_with("bad.romproj is not a valid project: "));

    let (image, settings) = sample();
    let mut file = project_file(&image, &settings);
    file.banks[0].binary = "banks/bank_099.bin".to_owned();
    let bytes = project_archive(&image, "{}", "sample.romproj").unwrap();
    let (mut archive, _) = open_project_archive(bytes, "sample.romproj").unwrap();
    let data = read_bank_data(&mut archive, &file);
    assert!(data[0].as_ref().unwrap_err().starts_with("Missing bank data banks/bank_099.bin: "));
    assert_eq!(
        project_from_file(&file, &data).err().map(|e| e.starts_with("Missing bank data")),
        Some(true)
    );
}

#[test]
fn empty_image_archive_holds_only_the_record() {
    let image = ProjectImage::new(chips()[0], layouts()[0]);
    let settings = ProjectSettings {
        remove_policy: RemovePolicy::Blank,
        multi_rom_image: true,
        allow_larger_chip: false,
        layout_by_size: true,
    };
    let file = project_file(&image, &settings);
    assert!(file.banks.is_empty());
    let bytes = project_archive(&image, "", "empty.romproj").unwrap();
    let (mut archive, text) = open_project_archive(bytes, "empty.romproj").unwrap();
    assert_eq!(text, "");
    let data = read_bank_data(&mut archive, &file);
    let loaded = project_from_file(&file, &data).unwrap();
    assert_eq!(loaded.image.populated_count(), 0);
    assert!(loaded.settings.layout_by_size);
}
