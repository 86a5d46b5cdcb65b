use kickstart::classrooms::input_positions;
use kickstart::chips::max_packs;
use kickstart::collection::{input_classrooms, minimum_distance, parse_row};
use kickstart::read_u32::{read_counted_pairs, U32Reader};
use kickstart::triple::input_numbers;
use kickstart::vowels::{count_vowel_clusters, count_vowels};

#[test]
fn reads_numbers_by_delimiter() {
    let mut reader = U32Reader::new(b"3\n12 7 450\n".to_vec());
    assert_eq!(reader.read_until_newline(), 3);
    assert_eq!(reader.read_until_space(), 12);
    assert_eq!(reader.read_until_space(), 7);
    assert_eq!(reader.read_until_newline(), 450);
    assert!(!reader.can_read_until_newline());
    assert!(!reader.can_read_until_space());
    assert!(reader.into_inner().is_empty());
}

#[test]
fn reads_windows_newlines_and_missing_trailer() {
    let mut reader = U32Reader::new(b"2\r\n1 3\r\n1 11".to_vec());
    assert_eq!(reader.read_until_newline(), 2);
    assert_eq!(reader.read_until_space(), 1);
    assert_eq!(reader.read_until_newline(), 3);
    assert_eq!(reader.read_until_space(), 1);
    assert!(reader.can_read_until_space());
    assert_eq!(reader.read_until_space(), 11);
    assert!(!reader.can_read_until_space());
}

#[test]
fn rejects_what_is_not_a_u32() {
    let reader = U32Reader::new(b"4294967296 5".to_vec());
    assert!(!reader.can_read_until_space());
    assert!(!reader.can_read_until_newline());
    assert_eq!(reader.into_inner(), b"4294967296 5".to_vec());

    let mut reader = U32Reader::new(b"4294967295 +5\n".to_vec());
    assert_eq!(reader.read_until_space(), u32::MAX);
    assert_eq!(reader.read_until_newline(), 5);
}

#[test]
fn what_starts_with_a_u32() {
    let fits = |text: &[u8]| U32Reader::new(text.to_vec()).can_read_until_space();
    // The parser would let these ten-digit values through modulo 2^32.
    assert!(!fits(b"5294967296"));
    assert!(!fits(b"9999999999"));
    assert!(!fits(b"4294967296"));
    assert!(!fits(b"10000000000"));
    assert!(fits(b"4294967295"));
    assert!(fits(b"00004294967295 "));
    assert!(fits(b"0000000000000000000001 "));
    assert!(fits(b"+7"));
    assert!(!fits(b"+"));
    assert!(!fits(b""));
    assert!(!fits(b"x"));
    assert!(!fits(b"+x"));

    let read = |text: &[u8]| U32Reader::new(text.to_vec()).read_until_space();
    assert_eq!(read(b"00004294967295 "), u32::MAX);
    assert_eq!(read(b"0000000000000000000001 "), 1);
    assert_eq!(read(b"+7"), 7);
    assert_eq!(read(b"0"), 0);

    let line_fits = |text: &[u8]| U32Reader::new(text.to_vec()).can_read_until_newline();
    assert!(line_fits(b"12\r\n"));
    assert!(line_fits(b"12"));
    assert!(!line_fits(b"\n12\n"));
    assert!(!line_fits(b""));
}

#[test]
fn buffer_access() {
    let mut reader = U32Reader::new(b"10 20".to_vec());
    assert_eq!(reader.read_until_space(), 10);
    assert_eq!(reader.get_mut(), &b"10 20".to_vec());
    reader.get_mut().extend_from_slice(b" 30");
    assert_eq!(reader.read_until_space(), 20);
    assert_eq!(reader.read_until_space(), 30);

    // The read position stays put: what replaces the unread bytes is read next.
    let mut reader = U32Reader::new(b"1 2 3".to_vec());
    assert_eq!(reader.read_until_space(), 1);
    reader.get_mut().truncate(2);
    reader.get_mut().extend_from_slice(b"9 8");
    assert_eq!(reader.read_until_space(), 9);
    assert_eq!(reader.into_inner(), b"8".to_vec());
}

#[test]
fn vowel_samples() {
    assert_eq!(count_vowels("SPCC"), 0);
    assert_eq!(count_vowels("Computer Club"), 4);
    assert_eq!(count_vowels("aeiouAEIOU"), 10);
    assert_eq!(count_vowels("bcdfghjklmnpqrstvwxyzBCDFGHJKLMNPQRSTVWXYZ"), 0);
    assert_eq!(count_vowels(&"a".repeat(100)), 100);
}

#[test]
fn vowels_in_wide_text() {
    assert_eq!(count_vowels("\u{5141}"), 0);
    assert_eq!(count_vowels(&"\u{6e2c}\u{8a66}".repeat(50)), 0);
    assert_eq!(count_vowels(&"A\u{6e2c}\u{8a66}B".repeat(25)), 25);
    assert_eq!(count_vowels(&"B\u{6e2c}\u{8a66}A".repeat(25)), 25);
}

#[test]
fn combining_marks_are_not_vowels() {
    assert_eq!(count_vowels("e\u{0301}"), 0);
    assert_eq!(count_vowels("\u{00e9}"), 0);
    assert_eq!(count_vowels("ae\u{0301}o"), 2);
}

#[test]
fn counting_given_clusters() {
    let clusters: Vec<String> = ["a", "e\u{0301}", "x", "U", "io"].iter().map(|s| s.to_string()).collect();
    assert_eq!(count_vowel_clusters(&clusters), 2);
}

#[test]
fn reads_lines() {
    let mut reader = U32Reader::new(b"2\r\n10010\r\n111".to_vec());
    assert_eq!(reader.read_until_newline(), 2);
    assert_eq!(reader.read_line(), b"10010\r".to_vec());
    assert_eq!(reader.read_line(), b"111".to_vec());
    assert_eq!(reader.read_line(), Vec::<u8>::new());
}

#[test]
fn parses_rows_of_rooms() {
    assert_eq!(parse_row(b"10010\r"), Some(vec![true, false, false, true, false]));
    assert_eq!(parse_row(b""), Some(vec![]));
    assert_eq!(parse_row(b"1x"), None);
}

#[test]
fn reads_counted_pairs() {
    assert_eq!(
        read_counted_pairs(b"2\n1 3\n1 11".to_vec()),
        Some(vec![(1, 3), (1, 11)])
    );
    assert_eq!(
        read_counted_pairs(b"3\r\n20 5\r\n31 6\r\n7 7\r\n".to_vec()),
        Some(vec![(20, 5), (31, 6), (7, 7)])
    );
    assert_eq!(read_counted_pairs(b"0\n".to_vec()), Some(vec![]));
    assert_eq!(read_counted_pairs(b"2\n1 3\n".to_vec()), None);
    assert_eq!(read_counted_pairs(b"".to_vec()), None);
    assert_eq!(read_counted_pairs(b"1\n1 \n".to_vec()), None);
}

#[test]
fn reads_numbers_and_positions() {
    assert_eq!(input_numbers(b"5\n2 4 8 11 12".to_vec()), Some(vec![2, 4, 8, 11, 12]));
    assert_eq!(input_numbers(b"1\n7\r\n".to_vec()), Some(vec![7]));
    assert_eq!(input_numbers(b"0\n".to_vec()), None);
    assert_eq!(input_numbers(b"3\n1 2".to_vec()), None);
    assert_eq!(input_numbers(b"2\n5294967296 4".to_vec()), None);
    assert_eq!(input_numbers(b"2\nx 4".to_vec()), None);
    assert_eq!(input_numbers(b"".to_vec()), None);
    assert_eq!(input_positions(b"7 1 4".to_vec()), Some([7, 1, 4]));
    assert_eq!(input_positions(b"10 10\n".to_vec()), None);
}

#[test]
fn reads_classroom_cases() {
    assert_eq!(
        input_classrooms(b"2\n3\n111\n5\n10010".to_vec()),
        Some(vec![vec![true, true, true], vec![true, false, false, true, false]])
    );
    assert_eq!(
        input_classrooms(b"1\r\n2\r\n10\r\n".to_vec()),
        Some(vec![vec![true, false]])
    );
    assert_eq!(input_classrooms(b"1\n2\n12\n".to_vec()), None);
    assert_eq!(input_classrooms(b"2\n1\n1\n".to_vec()), None);
}

#[test]
fn classroom_cases_end_to_end() {
    use_cases(b"5\n10\n1111111111\n10\n1010101010\n10\n0101010101\n2\n10\n1\n1\n");
    use_cases(b"5\r\n10\r\n1111111111\r\n10\r\n1010101010\r\n10\r\n0101010101\r\n2\r\n10\r\n1\r\n1\r\n");
}

fn use_cases(text: &[u8]) {
    let rows = input_classrooms(text.to_vec()).unwrap();
    let distances: Vec<u64> = rows.iter().map(|rooms| minimum_distance(rooms)).collect();
    assert_eq!(distances, vec![0, 5, 5, 1, 0]);
}

#[test]
fn chip_cases_end_to_end() {
    let mut text = String::from("100\n");
    for wallet in 1..=100 {
        text.push_str(&format!("1 {wallet}\n"));
    }
    let packs: Vec<u32> = read_counted_pairs(text.into_bytes())
        .unwrap()
        .into_iter()
        .map(|(price, wallet)| max_packs(price, wallet))
        .collect();
    assert_eq!(&packs[..6], &[1, 1, 2, 2, 2, 3]);
    assert_eq!(packs[99], 13);
}
