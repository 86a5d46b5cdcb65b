//! Reading a 9 by 9 sudoku board: a `9 9` header line, then nine lines of
//! nine digits from 1 to 9.

use crate::read_u32::{lemma_line_len, line_len};
use vstd::prelude::*;

verus! {

/// What reading the board gave.
#[derive(Debug, PartialEq, Eq)]
pub enum BoardInput {
    /// The 81 cells, row by row, each digit less one (0 to 8).
    Cells(Vec<u8>),
    /// The header or a row is not as described.
    Invalid,
    /// A row holds fewer than nine bytes, all of them digits: the input
    /// ended too early.
    Truncated,
}

/// Where the `k`-th line of `b` starts; each line ends after a newline.
pub open spec fn line_start(b: Seq<u8>, k: nat) -> int
    decreases k,
{
    if k == 0 {
        0
    } else {
        let s = line_start(b, (k - 1) as nat);
        s + line_len(b.subrange(s, b.len() as int))
    }
}

/// The `k`-th line of `b`, with its newline.
pub open spec fn line_at(b: Seq<u8>, k: nat) -> Seq<u8> {
    let s = line_start(b, k);
    b.subrange(s, s + line_len(b.subrange(s, b.len() as int)))
}

/// The header line: `9 9` and a newline, `\n` or `\r\n`.
pub open spec fn header_ok(line: Seq<u8>) -> bool {
    line == seq![57u8, 32u8, 57u8, 10u8] || line == seq![57u8, 32u8, 57u8, 13u8, 10u8]
}

/// `b` is one of the digits 1 to 9.
pub open spec fn is_cell_digit(b: u8) -> bool {
    49 <= b <= 57
}

/// A byte among the first nine of `line` is not a digit from 1 to 9.
pub open spec fn row_has_bad_byte(line: Seq<u8>) -> bool {
    exists|i: int| 0 <= i < 9 && i < line.len() && !is_cell_digit(#[trigger] line[i])
}

/// Nine digits, then nothing but a newline.
pub open spec fn row_ok(line: Seq<u8>) -> bool {
    &&& !row_has_bad_byte(line)
    &&& line.len() >= 9
    &&& {
        let tail = line.subrange(9, line.len() as int);
        tail.len() == 0 || tail == seq![10u8] || tail == seq![13u8, 10u8]
    }
}

/// The `r`-th row of the board in `b`.
pub open spec fn row_line(b: Seq<u8>, r: nat) -> Seq<u8> {
    line_at(b, r + 1)
}

/// The rows before the `r`-th are all well formed.
pub open spec fn rows_ok_before(b: Seq<u8>, r: nat) -> bool {
    forall|q: nat| q < r ==> row_ok(#[trigger] row_line(b, q))
}

/// The board in `b` is cut short at row `r`.
pub open spec fn truncated_at(b: Seq<u8>, r: nat) -> bool {
    &&& r < 9
    &&& rows_ok_before(b, r)
    &&& !row_has_bad_byte(row_line(b, r))
    &&& row_line(b, r).len() < 9
}

/// What reading `b` must give: `Cells` when the header and all nine rows
/// are well formed, `Truncated` when the first row that is not is cut
/// short, `Invalid` otherwise.
pub open spec fn board_outcome(b: Seq<u8>, r: BoardInput) -> bool {
    match r {
        BoardInput::Cells(cells) => {
            &&& header_ok(line_at(b, 0))
            &&& rows_ok_before(b, 9)
            &&& cells@.len() == 81
            &&& forall|q: nat, c: int|
                q < 9 && 0 <= c < 9 ==> cells@[9 * q + c] == #[trigger] row_line(b, q)[c] - 49
        },
        BoardInput::Truncated => header_ok(line_at(b, 0)) && exists|q: nat| truncated_at(b, q),
        BoardInput::Invalid => !header_ok(line_at(b, 0)) || (!rows_ok_before(b, 9) && forall|q: nat|
            !truncated_at(b, q)),
    }
}

/// The end of the line of `b` that starts at `start`.
fn line_end(b: &[u8], start: usize) -> (end: usize)
    requires
        start <= b@.len(),
    ensures
        end == start + line_len(b@.subrange(start as int, b@.len() as int)),
        start <= end <= b@.len(),
{
    let ghost rest = b@.subrange(start as int, b@.len() as int);
    let mut k: usize = start;
    while k < b.len() && b[k] != 10
        invariant
            start <= k <= b@.len(),
            rest == b@.subrange(start as int, b@.len() as int),
            forall|i: int| start <= i < k ==> b@[i] != 10,
        decreases b@.len() - k,
    {
        k = k + 1;
    }
    let end = if k < b.len() {
        k + 1
    } else {
        k
    };
    proof {
        lemma_line_len(rest);
        let l = line_len(rest);
        if l - 1 < k - start && l < rest.len() {
            assert(rest[l - 1] == b@[start + l - 1]);
        }
        if k < b@.len() {
            assert(rest[k - start] == 10);
            if k - start < l - 1 {
                assert(rest[k - start] != 10);
            }
        }
        if k == b@.len() && l < rest.len() {
            assert(rest[l - 1] == b@[start + l - 1]);
        }
    }
    end
}

/// A row that is not well formed, after rows that all are, makes the board
/// invalid unless the row is cut short.
proof fn lemma_invalid_row(b: Seq<u8>, r: nat)
    requires
        r < 9,
        rows_ok_before(b, r),
        !row_ok(row_line(b, r)),
        !truncated_at(b, r),
    ensures
        !rows_ok_before(b, 9),
        forall|q: nat| !truncated_at(b, q),
{
    assert forall|q: nat| !truncated_at(b, q) by {
        if q < r {
            assert(row_ok(row_line(b, q)));
        } else if q > r && q < 9 {
            assert(!row_ok(row_line(b, r)));
        }
    }
}

/// Reads the board from the whole input `b`.
pub fn parse_board(b: &[u8]) -> (r: BoardInput)
    ensures
        board_outcome(b@, r),
{
    let header_end = line_end(b, 0);
    proof {
        assert(b@.subrange(0, b@.len() as int) =~= b@);
        assert(line_at(b@, 0) == b@.subrange(0, header_end as int));
    }
    let header_fits = (header_end == 4 && b[0] == 57 && b[1] == 32 && b[2] == 57 && b[3] == 10) || (
    header_end == 5 && b[0] == 57 && b[1] == 32 && b[2] == 57 && b[3] == 13 && b[4] == 10);
    proof {
        let h = line_at(b@, 0);
        assert(h.len() == header_end);
        assert(forall|i: int| 0 <= i < h.len() ==> h[i] == b@[i]);
        if header_fits {
            if header_end == 4 {
                assert(h =~= seq![57u8, 32u8, 57u8, 10u8]);
            } else {
                assert(h =~= seq![57u8, 32u8, 57u8, 13u8, 10u8]);
            }
        } else if header_ok(h) {
            if h == seq![57u8, 32u8, 57u8, 10u8] {
                assert(h[0] == 57u8 && h[1] == 32u8 && h[2] == 57u8 && h[3] == 10u8);
            } else {
                assert(h[0] == 57u8 && h[1] == 32u8 && h[2] == 57u8 && h[3] == 13u8 && h[4] == 10u8);
            }
        }
    }
    if !header_fits {
        return BoardInput::Invalid;
    }
    let mut cells: Vec<u8> = Vec::new();
    let mut start: usize = header_end;
    let mut r: usize = 0;
    while r < 9
        invariant
            header_ok(line_at(b@, 0)),
            r <= 9,
            start == line_start(b@, (r + 1) as nat),
            start <= b@.len(),
            rows_ok_before(b@, r as nat),
            cells@.len() == 9 * r,
            forall|q: nat, c: int|
                q < r && 0 <= c < 9 ==> cells@[9 * q + c] == #[trigger] row_line(b@, q)[c] - 49,
        decreases 9 - r,
    {
        let end = line_end(b, start);
        let len = end - start;
        let ghost line = row_line(b@, r as nat);
        assert(line == b@.subrange(start as int, end as int));
        let mut c: usize = 0;
        while c < 9 && c < len
            invariant
                r < 9,
                rows_ok_before(b@, r as nat),
                line == row_line(b@, r as nat),
                line == b@.subrange(start as int, end as int),
                len == end - start,
                end <= b@.len(),
                c <= 9,
                c <= len,
                forall|i: int| 0 <= i < c ==> is_cell_digit(#[trigger] line[i]),
                cells@.len() == 9 * r + c,
                forall|q: nat, c2: int|
                    q < r && 0 <= c2 < 9 ==> cells@[9 * q + c2] == #[trigger] row_line(b@, q)[c2] - 49,
                forall|i: int| 0 <= i < c ==> cells@[9 * r + i] == line[i] - 49,
            decreases 9 - c,
        {
            let byte = b[start + c];
            assert(byte == line[c as int]);
            if byte < 49 || byte > 57 {
                proof {
                    assert(row_has_bad_byte(line));
                    lemma_invalid_row(b@, r as nat);
                }
                return BoardInput::Invalid;
            }
            cells.push(byte - 49);
            c = c + 1;
        }
        proof {
            assert(!row_has_bad_byte(line));
        }
        if len < 9 {
            proof {
                assert(truncated_at(b@, r as nat));
            }
            return BoardInput::Truncated;
        }
        let tail_ok = len == 9 || (len == 10 && b[start + 9] == 10) || (len == 11 && b[start + 9] == 13
            && b[start + 10] == 10);
        proof {
            let tail = line.subrange(9, line.len() as int);
            assert(line.len() == len);
            assert(forall|i: int| 0 <= i < line.len() ==> line[i] == b@[start + i]);
            if tail_ok {
                if len == 10 {
                    assert(tail =~= seq![10u8]);
                } else if len == 11 {
                    assert(tail =~= seq![13u8, 10u8]);
                }
            } else {
                if tail == seq![10u8] {
                    assert(tail.len() == 1 && tail[0] == line[9]);
                } else if tail == seq![13u8, 10u8] {
                    assert(tail.len() == 2 && tail[0] == line[9] && tail[1] == line[10]);
                }
                assert(!row_ok(line));
                lemma_invalid_row(b@, r as nat);
            }
        }
        if !tail_ok {
            return BoardInput::Invalid;
        }
        proof {
            assert(row_ok(row_line(b@, r as nat)));
            assert forall|q: nat| q < r + 1 implies row_ok(#[trigger] row_line(b@, q)) by {}
        }
        start = end;
        r = r + 1;
    }
    BoardInput::Cells(cells)
}

} // verus!
