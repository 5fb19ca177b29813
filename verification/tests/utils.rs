use scrabble::board::ScrabbleBoard;
use scrabble::board_iterator::ScrabbleBoardIterator;
use scrabble::dictionary::Dictionary;
use scrabble::utils::{
    bitmasks_match, char_count_to_map, chars_within, convert_chars_to_bit_vec, encode_char, encode_chars,
    word_matches_bitmask,
};

#[test]
fn encodes_letters_as_bits() {
    assert_eq!(encode_char('A'), 1);
    assert_eq!(encode_char('C'), 4);
    assert_eq!(encode_char('Z'), 1 << 25);
    // A blank stands for any letter.
    assert_eq!(encode_char('*'), 0x3ff_ffff);
    assert_eq!(encode_chars("ABA"), 3);
    assert_eq!(convert_chars_to_bit_vec("CAB"), vec![4, 1, 2]);
}

#[test]
fn masks_match_position_by_position() {
    assert!(bitmasks_match(&vec![1, 2], &vec![3, 2]));
    assert!(!bitmasks_match(&vec![1, 2], &vec![2, 2]));
    assert!(!bitmasks_match(&vec![1], &vec![1, 2]));
    assert!(word_matches_bitmask(&"AB".to_string(), &vec![1, 3]));
    assert!(!word_matches_bitmask(&"AB".to_string(), &vec![1, 1]));
    assert!(!word_matches_bitmask(&"ABC".to_string(), &vec![1, 2]));
}

#[test]
fn counts_characters() {
    let mut counts = char_count_to_map("BANANA");
    counts.sort();
    assert_eq!(counts, vec![('A', 3), ('B', 1), ('N', 2)]);
    assert!(char_count_to_map("").is_empty());
}

#[test]
fn chars_within_counts_copies() {
    assert!(chars_within(&vec!['A', 'A'], &vec!['A', 'B', 'A']));
    assert!(!chars_within(&vec!['A', 'A'], &vec!['A', 'B']));
    assert!(chars_within(&vec![], &vec![]));
}

#[test]
fn dictionary_lookup() {
    let d = Dictionary::from_word_list("  CAT \nDOG\nAT\n");
    assert!(d.contains(&vec!['C', 'A', 'T']));
    assert!(d.contains(&vec!['A', 'T']));
    assert!(!d.contains(&vec!['C', 'A']));
    assert_eq!(d.words_of_length(3).len(), 2);
}

#[test]
fn iterator_walks_to_the_edge() {
    let mut board = ScrabbleBoard::new();
    board.set((0, 13), 'Q');
    let mut it = ScrabbleBoardIterator::new(&board, (0, 12), true, true);
    let a = it.next().unwrap();
    assert_eq!(a.coords, (0, 12));
    assert_eq!(a.char_at_coords, ' ');
    let b = it.next().unwrap();
    assert_eq!(b.coords, (0, 13));
    assert_eq!(b.char_at_coords, 'Q');
    assert!(it.next().is_some());
    assert!(it.next().is_none());
    assert!(it.next().is_none());
}

#[test]
fn iterator_walks_backwards_up_a_column() {
    let board = ScrabbleBoard::new();
    let mut it = ScrabbleBoardIterator::new(&board, (1, 4), false, false);
    assert_eq!(it.next().unwrap().coords, (1, 4));
    assert_eq!(it.next().unwrap().coords, (0, 4));
    assert!(it.next().is_none());
}

#[test]
fn word_list_lines_lose_surrounding_whitespace() {
    let dict = Dictionary::from_word_list("\tAT \u{a0}\r\n\u{3000}TO\n");
    assert!(dict.contains(&vec!['A', 'T']));
    assert!(dict.contains(&vec!['T', 'O']));
}
