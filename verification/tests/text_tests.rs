use rom_builder::changes::pad_byte_text;
use rom_builder::hexdump::format_hex;
use rom_builder::labels::{
    extract_file_name, layout_size_label, parse_pad_byte, trim_to_char_limit, unused_size_label,
};

const PAD_MESSAGE: &str = "Pad byte must be hexadecimal, for example FF or 0xFF";

#[test]
fn unused_size_label_uses_kb_for_whole_kib() {
    assert_eq!(unused_size_label(1024), "1kb");
    assert_eq!(unused_size_label(15 * 1024), "15kb");
    assert_eq!(unused_size_label(0), "0kb");
    assert_eq!(unused_size_label(1000), "1000b");
}

#[test]
fn layout_size_label_picks_the_largest_whole_unit() {
    assert_eq!(layout_size_label(16 * 1024), "16k");
    assert_eq!(layout_size_label(1024 * 1024), "1M");
    assert_eq!(layout_size_label(2 * 1024 * 1024), "2M");
    assert_eq!(layout_size_label(1000), "1000B");
}

#[test]
fn extract_file_name_keeps_or_adds_an_extension() {
    assert_eq!(extract_file_name("  Diag  "), "Diag.bin");
    assert_eq!(extract_file_name("basic.ROM"), "basic.ROM");
    assert_eq!(extract_file_name("os.bin"), "os.bin");
    assert_eq!(extract_file_name("   "), "rom.bin");
    assert_eq!(extract_file_name(""), "rom.bin");
    assert_eq!(extract_file_name("game.rom2"), "game.rom2.bin");
}

#[test]
fn trim_to_char_limit_cuts_at_characters() {
    let mut value = "abcdef".to_owned();
    trim_to_char_limit(&mut value, 4);
    assert_eq!(value, "abcd");

    let mut short = "ab".to_owned();
    trim_to_char_limit(&mut short, 4);
    assert_eq!(short, "ab");

    let mut wide = "ééééé".to_owned();
    trim_to_char_limit(&mut wide, 2);
    assert_eq!(wide, "éé");
}

#[test]
fn parse_pad_byte_reads_hex_with_or_without_prefix() {
    assert_eq!(parse_pad_byte("FF"), Ok(0xFF));
    assert_eq!(parse_pad_byte("0x1f"), Ok(0x1F));
    assert_eq!(parse_pad_byte("  0XAb "), Ok(0xAB));
    assert_eq!(parse_pad_byte("+7F"), Ok(0x7F));
    assert_eq!(parse_pad_byte("0"), Ok(0));
}

#[test]
fn parse_pad_byte_rejects_what_is_not_one_hex_byte() {
    assert_eq!(parse_pad_byte("zz"), Err(PAD_MESSAGE.to_owned()));
    assert_eq!(parse_pad_byte("100"), Err(PAD_MESSAGE.to_owned()));
    assert_eq!(parse_pad_byte(""), Err(PAD_MESSAGE.to_owned()));
    assert_eq!(parse_pad_byte("0x"), Err(PAD_MESSAGE.to_owned()));
    assert_eq!(parse_pad_byte("-1"), Err(PAD_MESSAGE.to_owned()));
}

#[test]
fn pad_byte_text_is_two_upper_case_digits() {
    assert_eq!(pad_byte_text(0x0A), "0A");
    assert_eq!(pad_byte_text(0xFF), "FF");
    assert_eq!(pad_byte_text(0), "00");
}

#[test]
fn pad_byte_text_reads_back_as_the_same_byte() {
    for byte in 0..=255u8 {
        assert_eq!(parse_pad_byte(&pad_byte_text(byte)), Ok(byte));
    }
}

#[test]
fn format_hex_lays_out_offset_bytes_and_text() {
    let data = [0x41u8, 0x42, 0x00];
    let expected = format!(
        "00000000  41 42 00 {} {} AB.\n",
        "   ".repeat(5),
        "   ".repeat(8)
    );
    assert_eq!(format_hex(&data, 0, 3), expected);
}

#[test]
fn format_hex_starts_at_the_offset_and_clips_to_the_data() {
    let data: Vec<u8> = (0u8..40).collect();
    let text = format_hex(&data, 16, 100);
    let lines: Vec<&str> = text.lines().collect();
    assert_eq!(lines.len(), 2);
    assert!(lines[0].starts_with("00000010  10 11 12 13 14 15 16 17  18 19 1A 1B 1C 1D 1E 1F  "));
    assert!(lines[1].starts_with("00000020  20 21 22 23 24 25 26 27 "));
    assert!(lines[1].ends_with(" !\"#$%&'"));
    assert_eq!(format_hex(&data, 40, 10), "");
}

#[test]
fn sidecar_lines_are_read_back() {
    let parsed = rom_builder::sidecar::parse_slot_layout(
        "ROM Builder metadata\nslot|1|0|100|0|First|part\nslot|1|1|50|1|Gap\nfree|1|Spare\nslot|x|0|1|0|Bad\nslot|2|0|5|0\n",
    );
    assert_eq!(parsed.len(), 1);
    let bank = &parsed[&1];
    assert_eq!(bank.slots.len(), 2);
    assert_eq!(bank.slots[0].label, "First|part");
    assert_eq!(bank.slots[0].len, 100);
    assert!(!bank.slots[0].blank);
    assert_eq!(bank.slots[1].label, "Gap");
    assert!(bank.slots[1].blank);
    assert_eq!(bank.remainder_label, "Spare");
}
