use rom_builder::names::{
    is_low_value_word, name_candidates_from_text, printable_strings, suggest_rom_names, title_word,
};

#[test]
fn printable_strings_keeps_runs_of_four_or_more() {
    let data = b"ab\x00abcd\x01xyz12345";
    assert_eq!(
        printable_strings(data),
        vec![(3, "abcd".to_owned()), (8, "xyz12345".to_owned())]
    );
    assert_eq!(printable_strings(b""), Vec::<(usize, String)>::new());
    assert_eq!(printable_strings(b"abc\x00def"), Vec::<(usize, String)>::new());
    assert_eq!(printable_strings(b"a b c"), vec![(0, "a b c".to_owned())]);
}

#[test]
fn title_word_capitalises_the_first_letter_only() {
    assert_eq!(title_word("mIXED"), "Mixed");
    assert_eq!(title_word("basic"), "Basic");
    assert_eq!(title_word("2nd"), "2nd");
    assert_eq!(title_word(""), "");
}

#[test]
fn low_value_words_ignore_case() {
    assert!(is_low_value_word("Copyright"));
    assert!(is_low_value_word("ROM"));
    assert!(is_low_value_word("the"));
    assert!(!is_low_value_word("Games"));
    assert!(!is_low_value_word("roms"));
}

#[test]
fn candidates_are_runs_of_three_then_two_then_one_words() {
    assert_eq!(
        name_candidates_from_text("hello, big world of 2024 xyz!"),
        vec![
            "Hello Big World",
            "Big World Xyz",
            "Hello Big",
            "Big World",
            "World Xyz",
            "Hello",
            "Big",
            "World",
            "Xyz",
        ]
    );
    assert_eq!(name_candidates_from_text("the rom version"), Vec::<String>::new());
}

#[test]
fn candidates_longer_than_thirty_characters_are_dropped() {
    let text = "Abcdefghijkl Mnopqrstuvwx Yzabcdefgh";
    let candidates = name_candidates_from_text(text);
    assert_eq!(
        candidates,
        vec![
            "Abcdefghijkl Mnopqrstuvwx",
            "Mnopqrstuvwx Yzabcdefgh",
            "Abcdefghijkl",
            "Mnopqrstuvwx",
            "Yzabcdefgh",
        ]
    );
}

#[test]
fn only_the_first_twelve_words_are_used() {
    let text = "aaa bbb ccc ddd eee fff ggg hhh iii jjj kkk lll mmm nnn";
    let candidates = name_candidates_from_text(text);
    assert!(candidates.contains(&"Lll".to_owned()));
    assert!(!candidates.contains(&"Mmm".to_owned()));
    assert_eq!(candidates.len(), 10 + 11 + 12);
}

#[test]
fn suggestions_rank_longer_phrases_first() {
    let data = b"\x01\x02Super Game Deluxe\x00\x00\x00\x00";
    assert_eq!(
        suggest_rom_names(data),
        vec![
            "Super Game Deluxe",
            "Game Deluxe",
            "Super Game",
            "Deluxe",
            "Super",
            "Game",
        ]
    );
}

#[test]
fn suggestions_drop_repeats_ignoring_case() {
    assert_eq!(suggest_rom_names(b"GAME game"), vec!["Game Game", "Game"]);
    assert_eq!(suggest_rom_names(b"THE ROM VERSION Basic"), Vec::<String>::new());
    assert_eq!(suggest_rom_names(b""), Vec::<String>::new());
}

#[test]
fn text_near_the_start_ranks_higher() {
    let mut data = Vec::new();
    data.extend_from_slice(b"Alpha");
    data.extend_from_slice(&[0u8; 95]);
    data.extend_from_slice(b"Gamma");
    let names = suggest_rom_names(&data);
    assert_eq!(names, vec!["Alpha", "Gamma"]);
}

#[test]
fn suggestions_are_few_short_and_distinct() {
    let mut data = Vec::new();
    for i in 0..40u8 {
        data.extend_from_slice(format!("Word{} Name{} Title{} ", i, i, i).as_bytes());
        data.push(0);
    }
    let names = suggest_rom_names(&data);
    assert_eq!(names.len(), 30);
    for (i, a) in names.iter().enumerate() {
        assert!(a.chars().count() <= 30);
        for b in names.iter().skip(i + 1) {
            assert!(!a.eq_ignore_ascii_case(b));
        }
    }
}
