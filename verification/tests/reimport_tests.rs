use std::collections::HashMap;

use rom_builder::bank::{RemovePolicy, RomBank};
use rom_builder::catalog::{chips, layouts};
use rom_builder::image::ProjectImage;
use rom_builder::sidecar::parse_slot_layout;

#[test]
fn reimport_with_sidecar_rebuilds_every_bank() {
    let chip = chips()[0];
    let layout = layouts()[0];
    let mut image = ProjectImage::new(chip, layout);
    let mut first = RomBank::from_partial(layout, "Loader".to_owned(), &[0x31; 2000], 0xFF).unwrap();
    first.add_into_free("Tools".to_owned(), None, &[0x32; 3000]).unwrap();
    first.add_into_free("Extra".to_owned(), None, &[0x33; 100]).unwrap();
    first.remove_slot(1, RemovePolicy::Blank, 0xFF);
    image.set_bank(0, first).unwrap();
    image
        .set_bank(2, RomBank::from_slice(layout, "Full".to_owned(), &[0x44; 16 * 1024]).unwrap())
        .unwrap();

    let data = image.export_bytes();
    let parsed = parse_slot_layout(&image.metadata_text("image.bin"));
    let (again, warning) = ProjectImage::import_bytes_with(chip, layout, &data, 0xFF, &parsed).unwrap();
    assert!(warning.is_none());

    for b in 0..4 {
        match (&image.banks[b], &again.banks[b]) {
            (None, None) => {}
            (Some(before), Some(after)) => {
                assert_eq!(before.data, after.data);
                assert_eq!(before.slots.len(), after.slots.len());
                for (x, y) in before.slots.iter().zip(after.slots.iter()) {
                    assert_eq!(x.label, y.label);
                    assert_eq!(x.len, y.len);
                    assert_eq!(x.blank, y.blank);
                    assert!(y.source_path.is_none());
                }
            }
            _ => panic!("bank {b} changed population"),
        }
    }
    assert_eq!(again.banks[0].as_ref().unwrap().remainder_label, "Free");
    assert!(again.banks[0].as_ref().unwrap().slots[1].blank);
    assert_eq!(again.export_bytes(), data);
}

#[test]
fn reimport_without_sidecar_names_banks_by_chip() {
    let chip = chips()[0];
    let layout = layouts()[0];
    let mut data = vec![0xFF; chip.capacity];
    data[16 * 1024..32 * 1024].fill(0x12);
    let (image, warning) = ProjectImage::import_bytes_with(chip, layout, &data, 0xFF, &HashMap::new()).unwrap();
    assert!(warning.is_none());
    assert!(image.banks[0].is_none());
    assert_eq!(image.banks[1].as_ref().unwrap().slots[0].label, "W27C512 bank 1");
    assert_eq!(image.populated_count(), 1);
}
