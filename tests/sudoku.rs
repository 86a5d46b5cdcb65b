use kickstart::sudoku::{parse_board, BoardInput};

const ROWS: [&str; 9] = [
    "534678912",
    "672195348",
    "198342567",
    "859761423",
    "426853791",
    "713924856",
    "961537284",
    "287419635",
    "345286179",
];

fn board_text(header: &str, newline: &str) -> Vec<u8> {
    let mut text = format!("{header}{newline}");
    for row in ROWS {
        text.push_str(row);
        text.push_str(newline);
    }
    text.into_bytes()
}

#[test]
fn reads_a_full_board() {
    let expected: Vec<u8> = ROWS.iter().flat_map(|row| row.bytes().map(|b| b - b'1')).collect();
    assert_eq!(parse_board(&board_text("9 9", "\n")), BoardInput::Cells(expected.clone()));
    assert_eq!(parse_board(&board_text("9 9", "\r\n")), BoardInput::Cells(expected.clone()));
    let mut no_final_newline = board_text("9 9", "\n");
    no_final_newline.pop();
    assert_eq!(parse_board(&no_final_newline), BoardInput::Cells(expected));
}

#[test]
fn rejects_bad_boards() {
    assert_eq!(parse_board(&board_text("9 8", "\n")), BoardInput::Invalid);
    assert_eq!(parse_board(b"9 9"), BoardInput::Invalid);
    let mut zero = board_text("9 9", "\n");
    zero[4] = b'0';
    assert_eq!(parse_board(&zero), BoardInput::Invalid);
    let mut long_row = board_text("9 9", "\n");
    long_row[13] = b'1';
    assert_eq!(parse_board(&long_row), BoardInput::Invalid);
}

#[test]
fn notices_a_short_input() {
    assert_eq!(parse_board(b"9 9\n123456789\n"), BoardInput::Truncated);
    assert_eq!(parse_board(b"9 9\n1234"), BoardInput::Truncated);
    assert_eq!(parse_board(b"9 9\n1234\n"), BoardInput::Invalid);
}
