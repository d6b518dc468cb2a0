use fivewords::dictionary::Dictionary;
use fivewords::search::SearchOutcome;
use fivewords::word::{get_letter, get_letter_index, ValidationError, Word};

fn strings(items: &[&str]) -> Vec<String> {
    items.iter().map(|s| String::from(*s)).collect()
}

fn word(s: &str) -> Word {
    Word::from_string(String::from(s)).expect("expected a valid word")
}

#[test]
fn letter_index_maps_lowercase() {
    assert_eq!(get_letter_index('a'), Some(0));
    assert_eq!(get_letter_index('m'), Some(12));
    assert_eq!(get_letter_index('z'), Some(25));
}

#[test]
fn letter_index_maps_uppercase() {
    assert_eq!(get_letter_index('A'), Some(0));
    assert_eq!(get_letter_index('Q'), Some(16));
    assert_eq!(get_letter_index('Z'), Some(25));
}

#[test]
fn letter_index_rejects_other_characters() {
    assert_eq!(get_letter_index('3'), None);
    assert_eq!(get_letter_index(' '), None);
    assert_eq!(get_letter_index('!'), None);
    assert_eq!(get_letter_index('\u{e9}'), None);
}

#[test]
fn get_letter_inverts_index() {
    assert_eq!(get_letter(0), 'a');
    assert_eq!(get_letter(11), 'l');
    assert_eq!(get_letter(25), 'z');
}

#[test]
fn unrecognized_character_rejected() {
    assert_eq!(
        Word::try_build(String::from("ab3de")).unwrap_err(),
        ValidationError::UnrecognizedCharacter
    );
    assert_eq!(
        Word::try_build(String::from("w rds")).unwrap_err(),
        ValidationError::UnrecognizedCharacter
    );
    assert_eq!(
        Word::try_build(String::from("caf\u{e9}s")).unwrap_err(),
        ValidationError::UnrecognizedCharacter
    );
}

#[test]
fn duplicate_letter_rejected() {
    assert_eq!(
        Word::try_build(String::from("HELLO")).unwrap_err(),
        ValidationError::DuplicateLetter
    );
    assert_eq!(
        Word::try_build(String::from("hello")).unwrap_err(),
        ValidationError::DuplicateLetter
    );
    // Case-insensitive: 'A' and 'a' are the same letter.
    assert_eq!(
        Word::try_build(String::from("Aloha")).unwrap_err(),
        ValidationError::DuplicateLetter
    );
}

#[test]
fn wrong_length_rejected() {
    assert_eq!(
        Word::try_build(String::from("CAT")).unwrap_err(),
        ValidationError::WrongLength
    );
    assert_eq!(
        Word::try_build(String::from("ABCDEFG")).unwrap_err(),
        ValidationError::WrongLength
    );
    assert_eq!(
        Word::try_build(String::from("")).unwrap_err(),
        ValidationError::WrongLength
    );
}

#[test]
fn valid_word_has_five_bits() {
    assert_eq!(word("fjord").bit_count(), 5);
    assert_eq!(word("WALTZ").bit_count(), 5);
    assert_eq!(word("NymPh").bit_count(), 5);
}

#[test]
fn anagrams_compare_equal() {
    assert_eq!(word("stone"), word("notes"));
    assert_eq!(word("STONE"), word("onset"));
    assert_ne!(word("stone"), word("fjord"));
}

#[test]
fn disjointness_concrete_cases() {
    let fjord = word("FJORD");
    let plumb = word("PLUMB");
    let frost = word("FROST");
    assert!(fjord.disjoint(&plumb));
    assert!(!fjord.disjoint(&frost));
    assert!(!fjord.shares_letters(&plumb));
    assert!(fjord.shares_letters(&frost));
    // FJORD and FROST share exactly F, R and O.
    assert_eq!(fjord.num_shared_letters(&frost), 3);
    assert_eq!(fjord.num_shared_letters(&plumb), 0);
}

#[test]
fn combine_letters_unions_signatures() {
    let fjord = word("fjord");
    let plumb = word("plumb");
    let both = fjord.combine_letters(&plumb);
    assert_eq!(both.bit_count(), 10);
    assert!(both.shares_letters(&fjord));
    assert!(both.shares_letters(&plumb));
}

#[test]
fn from_letters_and_clone_letters() {
    let w = Word::from_letters(0b111);
    assert_eq!(w.bit_count(), 3);
    assert_eq!(w.surface_count(), 0);
    let c = word("fjord").clone_letters();
    assert_eq!(c.bit_count(), 5);
    assert_eq!(c.surface_count(), 0);
    assert_eq!(c, word("fjord"));
}

#[test]
fn add_str_keeps_order() {
    let mut w = word("stone");
    w.add_str(String::from("notes"));
    w.add_str(String::from("onset"));
    assert_eq!(w.surface_count(), 3);
    assert_eq!(w.surface_at(0), "stone");
    assert_eq!(w.surface_at(1), "notes");
    assert_eq!(w.surface_at(2), "onset");
}

#[test]
fn surface_line_joins_with_commas() {
    let mut w = word("stone");
    w.add_str(String::from("notes"));
    assert_eq!(w.surface_line(), "stone, notes");
    let single = word("fjord");
    assert_eq!(single.surface_line(), "fjord");
    let empty = Word::from_letters(0);
    assert_eq!(empty.surface_line(), "");
}

#[test]
fn empty_input_gives_empty_dictionary() {
    let (d, stats) = Dictionary::build(Vec::new());
    assert_eq!(d.len(), 0);
    assert_eq!(stats.ignored, 0);
    assert_eq!(stats.distinct, 0);
    assert_eq!(stats.merged, 0);
    match d.search() {
        SearchOutcome::TooFewWords(ws) => assert_eq!(ws.len(), 0),
        SearchOutcome::Solutions(_) => panic!("expected the degenerate report"),
    }
}

#[test]
fn anagram_merge_collects_all_spellings() {
    let (d, stats) = Dictionary::build(strings(&["STONE", "NOTES", "ONSET"]));
    assert_eq!(d.len(), 1);
    let entry = d.entry(0);
    assert_eq!(entry.surface_count(), 3);
    assert_eq!(entry.surface_at(0), "STONE");
    assert_eq!(entry.surface_at(1), "NOTES");
    assert_eq!(entry.surface_at(2), "ONSET");
    assert_eq!(stats.ignored, 0);
    assert_eq!(stats.distinct, 1);
    assert_eq!(stats.merged, 2);
}

#[test]
fn build_counts_ignored_and_merged() {
    let (d, stats) = Dictionary::build(strings(&[
        "fjord", "hello", "cat", "FJORD", "gucks", "djrfo",
    ]));
    // "hello" repeats a letter, "cat" is short; "FJORD" duplicates and
    // "djrfo" is an anagram of "fjord".
    assert_eq!(d.len(), 2);
    assert_eq!(stats.ignored, 2);
    assert_eq!(stats.distinct, 2);
    assert_eq!(stats.merged, 2);
}

#[test]
fn build_same_input_twice_gives_same_signatures() {
    let input = &["fjord", "gucks", "nymph", "hello", "djrfo", "waltz"];
    let (d1, _) = Dictionary::build(strings(input));
    let (d2, _) = Dictionary::build(strings(input));
    let mut m1: Vec<u32> = (0..d1.len()).map(|i| d1.entry(i).letters()).collect();
    let mut m2: Vec<u32> = (0..d2.len()).map(|i| d2.entry(i).letters()).collect();
    m1.sort();
    m2.sort();
    assert_eq!(m1, m2);
}

#[test]
fn end_to_end_single_solution() {
    let (d, stats) = Dictionary::build(strings(&["FJORD", "GUCKS", "NYMPH", "VIBEX", "WALTZ"]));
    assert_eq!(d.len(), 5);
    assert_eq!(stats.ignored, 0);
    match d.search() {
        SearchOutcome::Solutions(sols) => {
            assert_eq!(sols.len(), 1);
            let s = sols[0];
            assert_eq!((s.i1, s.i2, s.i3, s.i4, s.i5), (4, 3, 2, 1, 0));
            assert_eq!(d.entry(s.i1).surface_at(0), "WALTZ");
            assert_eq!(d.entry(s.i5).surface_at(0), "FJORD");
        }
        SearchOutcome::TooFewWords(_) => panic!("expected a search to run"),
    }
}

#[test]
fn end_to_end_no_solution() {
    // Five valid words, but "frost" shares letters with "fjord".
    let (d, _) = Dictionary::build(strings(&["fjord", "gucks", "nymph", "vibex", "frost"]));
    assert_eq!(d.len(), 5);
    match d.search() {
        SearchOutcome::Solutions(sols) => assert_eq!(sols.len(), 0),
        SearchOutcome::TooFewWords(_) => panic!("expected a search to run"),
    }
}

#[test]
fn degenerate_dictionary_reports_words() {
    let (d, _) = Dictionary::build(strings(&["fjord", "gucks", "nymph"]));
    assert_eq!(d.len(), 3);
    match d.search() {
        SearchOutcome::TooFewWords(ws) => {
            assert_eq!(ws.len(), 3);
            assert_eq!(ws[0].surface_at(0), "fjord");
            assert_eq!(ws[1].surface_at(0), "gucks");
            assert_eq!(ws[2].surface_at(0), "nymph");
        }
        SearchOutcome::Solutions(_) => panic!("expected the degenerate report"),
    }
}

#[test]
fn multiple_solutions_in_enumeration_order() {
    // Two overlapping 25-letter covers: the last two words share v, w, x
    // and y, so each may complete the first four but not both at once.
    let (d, _) = Dictionary::build(strings(&[
        "abcde", "fghij", "klmno", "pqrst", "uvwxy", "vwxyz",
    ]));
    assert_eq!(d.len(), 6);
    match d.search() {
        SearchOutcome::Solutions(sols) => {
            assert_eq!(sols.len(), 2);
            assert_eq!(
                (sols[0].i1, sols[0].i2, sols[0].i3, sols[0].i4, sols[0].i5),
                (4, 3, 2, 1, 0)
            );
            assert_eq!(
                (sols[1].i1, sols[1].i2, sols[1].i3, sols[1].i4, sols[1].i5),
                (5, 3, 2, 1, 0)
            );
        }
        SearchOutcome::TooFewWords(_) => panic!("expected a search to run"),
    }
}

#[test]
fn anagrams_collapse_to_one_search_unit() {
    // Six input lines but only five distinct signatures; the solution still
    // appears exactly once and carries both spellings of the merged entry.
    let (d, _) = Dictionary::build(strings(&[
        "FJORD", "GUCKS", "NYMPH", "VIBEX", "WALTZ", "DJORF",
    ]));
    assert_eq!(d.len(), 5);
    match d.search() {
        SearchOutcome::Solutions(sols) => {
            assert_eq!(sols.len(), 1);
            let s = sols[0];
            assert_eq!(d.entry(s.i5).surface_line(), "FJORD, DJORF");
        }
        SearchOutcome::TooFewWords(_) => panic!("expected a search to run"),
    }
}
