//! Reading decimal `u32`s one by one from an in-memory input.

use vstd::prelude::*;

verus! {

/// `b` is an ASCII decimal digit.
pub open spec fn is_digit(b: u8) -> bool {
    48 <= b <= 57
}

/// 1 when `b` starts with a `+` sign, else 0.
pub open spec fn sign_len(b: Seq<u8>) -> int {
    if b.len() > 0 && b[0] == 43 {
        1
    } else {
        0
    }
}

/// The number of digits in the run of `b` that starts at `from`.
pub open spec fn digit_run(b: Seq<u8>, from: int) -> int
    decreases b.len() - from,
{
    if from < 0 || from >= b.len() || !is_digit(b[from]) {
        0
    } else {
        1 + digit_run(b, from + 1)
    }
}

/// The value of the decimal digits `d`.
pub open spec fn digits_value(d: Seq<u8>) -> int
    decreases d.len(),
{
    if d.len() == 0 {
        0
    } else {
        digits_value(d.drop_last()) * 10 + (d.last() - 48)
    }
}

/// How many leading bytes of `b` form its number: the sign, then the digits.
pub open spec fn number_len(b: Seq<u8>) -> int {
    sign_len(b) + digit_run(b, sign_len(b))
}

proof fn lemma_digit_run(b: Seq<u8>, from: int)
    requires
        0 <= from <= b.len(),
    ensures
        0 <= digit_run(b, from) <= b.len() - from,
    decreases b.len() - from,
{
    if from < b.len() {
        lemma_digit_run(b, from + 1);
    }
}

proof fn lemma_number_len(b: Seq<u8>)
    ensures
        0 <= number_len(b) <= b.len(),
{
    lemma_digit_run(b, sign_len(b));
}

proof fn lemma_digits_value_nonneg(d: Seq<u8>)
    requires
        forall|i: int| 0 <= i < d.len() ==> is_digit(#[trigger] d[i]),
    ensures
        digits_value(d) >= 0,
    decreases d.len(),
{
    if d.len() > 0 {
        lemma_digits_value_nonneg(d.drop_last());
    }
}

/// Digits added at the end never lower the value.
proof fn lemma_digits_value_grows(b: Seq<u8>, s: int, j: int, k: int)
    requires
        0 <= s <= j <= k <= b.len(),
        forall|i: int| s <= i < k ==> is_digit(#[trigger] b[i]),
    ensures
        digits_value(b.subrange(s, j)) <= digits_value(b.subrange(s, k)),
    decreases k - j,
{
    if j < k {
        lemma_digits_value_grows(b, s, j, k - 1);
        assert(b.subrange(s, k).drop_last() =~= b.subrange(s, k - 1));
        lemma_digits_value_nonneg(b.subrange(s, k - 1));
    }
}

/// The value of the digits after the optional sign at the start of `b`
/// (0 when there are none).
pub open spec fn leading_value(b: Seq<u8>) -> int {
    digits_value(b.subrange(sign_len(b), number_len(b)))
}

/// The number of digits of `d` after its leading zeros.
pub open spec fn significant_len(d: Seq<u8>) -> int
    decreases d.len(),
{
    if d.len() == 0 {
        0
    } else if d[0] == 48 {
        significant_len(d.drop_first())
    } else {
        d.len() as int
    }
}

/// Whether the parser accepts the number at the start of `b`: something
/// follows the optional sign, and the value of the digits there (0 when
/// there are none) fits in a `u32`, or else there are exactly ten
/// significant digits whose value modulo 2^32 is at least 10^9. The parser
/// lets those ten-digit values through reduced modulo 2^32 (`5294967296`
/// reads as 1000000000); the reads of [`U32Reader`] refuse them.
pub open spec fn parse_accepts(b: Seq<u8>) -> bool {
    let sig = significant_len(b.subrange(sign_len(b), number_len(b)));
    &&& b.len() > sign_len(b)
    &&& (leading_value(b) <= u32::MAX || (sig == 10 && leading_value(b) % 0x1_0000_0000
        >= 1_000_000_000))
}

/// What parsing the number at the start of `b` gives: its value modulo
/// 2^32 and its count of bytes, or `None` when the parser refuses it.
pub open spec fn parsed(b: Seq<u8>) -> Option<(u32, nat)> {
    if parse_accepts(b) {
        Some(((leading_value(b) % 0x1_0000_0000) as u32, number_len(b) as nat))
    } else {
        None
    }
}

/// Relies on `lexical::parse_partial::<u32, _>`: after an optional `+` it
/// reads decimal digits up to the first other byte or the end, skipping
/// leading zeros, and accumulates them with wrapping arithmetic. It fails
/// when nothing follows the sign, on more than ten significant digits, and
/// on ten whose wrapped value is below 10^9; otherwise it returns the
/// wrapped value and the number of bytes read. (A value of at most ten
/// significant digits that fits in a `u32` is at least 10^9 when it has
/// ten, so [`parse_accepts`] says the same.)
#[verifier::external_body]
fn parse_leading(b: &[u8]) -> (r: Option<(u32, usize)>)
    ensures
        r == (match parsed(b@) {
            Some((v, n)) => Some((v, n as usize)),
            None => None,
        }),
{
    lexical::parse_partial::<u32, _>(b).ok()
}

/// The bytes a read that stops after one delimiter byte skips, after a
/// number of `n` bytes at the start of `b`.
pub open spec fn skip_after(b: Seq<u8>, n: int) -> int {
    if n < b.len() {
        n + 1
    } else {
        n
    }
}

/// `b` starts with a `u32`: an optional `+`, at least one digit, and a
/// value of those digits that fits in a `u32`.
pub open spec fn starts_with_u32(b: Seq<u8>) -> bool {
    digit_run(b, sign_len(b)) > 0 && leading_value(b) <= u32::MAX
}

/// The first line of `b`, with its newline.
pub open spec fn first_line(b: Seq<u8>) -> Seq<u8> {
    b.subrange(0, line_len(b))
}

/// What [`U32Reader::read_until_space`] gives on the unread bytes `b` when
/// they start with a `u32`: the number and the bytes left after it and its
/// delimiter. `None`, with `b` itself, when they do not.
pub open spec fn space_read(b: Seq<u8>) -> (Option<u32>, Seq<u8>) {
    if starts_with_u32(b) {
        (Some(leading_value(b) as u32), b.subrange(skip_after(b, number_len(b)), b.len() as int))
    } else {
        (None, b)
    }
}

/// What [`U32Reader::read_until_newline`] gives on the unread bytes `b`
/// when a line is left that starts with a `u32`: the number and the bytes
/// after that line. `None`, with `b` itself, otherwise.
pub open spec fn newline_read(b: Seq<u8>) -> (Option<u32>, Seq<u8>) {
    if b.len() > 0 && starts_with_u32(first_line(b)) {
        (Some(leading_value(first_line(b)) as u32), b.subrange(line_len(b), b.len() as int))
    } else {
        (None, b)
    }
}

/// What [`U32Reader::read_line`] gives on the unread bytes `b`: the first
/// line without its `\n`, and the bytes after the line.
pub open spec fn line_read(b: Seq<u8>) -> (Seq<u8>, Seq<u8>) {
    let l = line_len(b);
    let ends_in_newline = l > 0 && b[l - 1] == 10;
    (b.subrange(0, if ends_in_newline { l - 1 } else { l }), b.subrange(l, b.len() as int))
}

/// Reading `k` space-ended numbers in turn from `b`: the numbers and the
/// bytes left, or `None` when a read fails.
pub open spec fn spaced_reads(b: Seq<u8>, k: nat) -> Option<(Seq<u32>, Seq<u8>)>
    decreases k,
{
    if k == 0 {
        Some((Seq::empty(), b))
    } else {
        match spaced_reads(b, (k - 1) as nat) {
            Some((vs, rest)) => match space_read(rest) {
                (Some(v), left) => Some((vs.push(v), left)),
                (None, _) => None,
            },
            None => None,
        }
    }
}

/// Reading `k` pairs in turn from `b`, each a space-ended number then a
/// newline-ended one: the pairs and the bytes left, or `None` when a read
/// fails.
pub open spec fn pair_reads(b: Seq<u8>, k: nat) -> Option<(Seq<(u32, u32)>, Seq<u8>)>
    decreases k,
{
    if k == 0 {
        Some((Seq::empty(), b))
    } else {
        match pair_reads(b, (k - 1) as nat) {
            Some((ps, rest)) => match space_read(rest) {
                (Some(x), mid) => match newline_read(mid) {
                    (Some(y), left) => Some((ps.push((x, y)), left)),
                    (None, _) => None,
                },
                (None, _) => None,
            },
            None => None,
        }
    }
}

/// Once a read fails, reading more pairs fails too.
pub proof fn lemma_pair_reads_stop(b: Seq<u8>, k: nat, m: nat)
    requires
        k <= m,
        pair_reads(b, k) is None,
    ensures
        pair_reads(b, m) is None,
    decreases m - k,
{
    if k < m {
        lemma_pair_reads_stop(b, k, (m - 1) as nat);
    }
}

/// Once a read fails, reading more numbers fails too.
pub proof fn lemma_spaced_reads_stop(b: Seq<u8>, k: nat, m: nat)
    requires
        k <= m,
        spaced_reads(b, k) is None,
    ensures
        spaced_reads(b, m) is None,
    decreases m - k,
{
    if k < m {
        lemma_spaced_reads_stop(b, k, (m - 1) as nat);
    }
}

/// The pairs of an input that gives their count on its first line, then
/// one pair per line.
pub open spec fn counted_pairs(b: Seq<u8>) -> Option<Seq<(u32, u32)>> {
    match newline_read(b) {
        (Some(k), rest) => match pair_reads(rest, k as nat) {
            Some((ps, _)) => Some(ps),
            None => None,
        },
        (None, _) => None,
    }
}

/// The bytes of `buf` from position `pos` on (none when `pos` is past its
/// end).
pub open spec fn unread(buf: Seq<u8>, pos: int) -> Seq<u8> {
    if 0 <= pos <= buf.len() {
        buf.subrange(pos, buf.len() as int)
    } else {
        Seq::empty()
    }
}

/// Reads `u32`s from a byte buffer, each followed by a delimiter.
pub struct U32Reader {
    buf: Vec<u8>,
    pos: usize,
}

impl View for U32Reader {
    /// The bytes not yet read.
    type V = Seq<u8>;

    closed spec fn view(&self) -> Seq<u8> {
        unread(self.buf@, self.pos as int)
    }
}

/// The bytes of `b` up to and including its first newline, or all of `b`.
pub open spec fn line_len(b: Seq<u8>) -> int
    decreases b.len(),
{
    if b.len() == 0 {
        0
    } else if b[0] == 10 {
        1
    } else {
        1 + line_len(b.drop_first())
    }
}

pub proof fn lemma_line_len(b: Seq<u8>)
    ensures
        0 <= line_len(b) <= b.len(),
        b.len() > 0 ==> line_len(b) > 0,
        forall|i: int| 0 <= i < line_len(b) - 1 ==> b[i] != 10,
        line_len(b) < b.len() ==> line_len(b) > 0 && b[line_len(b) - 1] == 10,
    decreases b.len(),
{
    if b.len() > 0 && b[0] != 10 {
        lemma_line_len(b.drop_first());
        assert forall|i: int| 0 <= i < line_len(b) - 1 implies b[i] != 10 by {
            if i > 0 {
                assert(b[i] == b.drop_first()[i - 1]);
            }
        }
        if line_len(b) < b.len() {
            assert(b[line_len(b) - 1] == b.drop_first()[line_len(b) - 2]);
        }
    }
}

proof fn lemma_run_digits(b: Seq<u8>, from: int)
    requires
        0 <= from <= b.len(),
    ensures
        from + digit_run(b, from) <= b.len(),
        forall|k: int| from <= k < from + digit_run(b, from) ==> is_digit(#[trigger] b[k]),
    decreases b.len() - from,
{
    if from < b.len() && is_digit(b[from]) {
        lemma_run_digits(b, from + 1);
    }
}

/// A `u32` at the start of `b` is what the parser reads there.
proof fn lemma_leading_value(b: Seq<u8>)
    ensures
        starts_with_u32(b) ==> parsed(b) == Some((leading_value(b) as u32, number_len(b) as nat)),
{
    if starts_with_u32(b) {
        let s = sign_len(b);
        lemma_run_digits(b, s);
        lemma_digits_value_nonneg(b.subrange(s, number_len(b)));
        assert(leading_value(b) % 0x1_0000_0000 == leading_value(b));
    }
}

/// Whether `b` starts with a `u32`.
fn leading_u32_fits(b: &[u8]) -> (r: bool)
    ensures
        r == starts_with_u32(b@),
{
    let s: usize = if b.len() > 0 && b[0] == 43 {
        1
    } else {
        0
    };
    let mut i: usize = s;
    let mut v: u64 = 0;
    while i < b.len() && b[i] >= 48 && b[i] <= 57
        invariant
            s == sign_len(b@),
            s <= i <= b@.len(),
            forall|k: int| s <= k < i ==> is_digit(#[trigger] b@[k]),
            digit_run(b@, s as int) == (i - s) + digit_run(b@, i as int),
            v == digits_value(b@.subrange(s as int, i as int)),
            v <= u32::MAX,
        decreases b@.len() - i,
    {
        let next = v * 10 + (b[i] - 48) as u64;
        assert(b@.subrange(s as int, i + 1).drop_last() =~= b@.subrange(s as int, i as int));
        if next > u32::MAX as u64 {
            proof {
                lemma_digit_run(b@, i + 1);
                assert(digit_run(b@, i as int) == 1 + digit_run(b@, i + 1));
                lemma_run_digits(b@, s as int);
                lemma_digits_value_grows(b@, s as int, i + 1, number_len(b@));
            }
            return false;
        }
        v = next;
        i = i + 1;
    }
    i > s
}

/// The length of the first line of `b`, with its newline.
fn first_line_len(b: &[u8]) -> (l: usize)
    ensures
        l == line_len(b@),
        l <= b@.len(),
{
    let len = b.len();
    let mut k: usize = 0;
    while k < len && b[k] != 10
        invariant
            k <= len,
            len == b@.len(),
            forall|i: int| 0 <= i < k ==> b@[i] != 10,
        decreases len - k,
    {
        k = k + 1;
    }
    let end = if k < len {
        k + 1
    } else {
        k
    };
    proof {
        lemma_line_len(b@);
        let l = line_len(b@);
        if l - 1 < k && l < b@.len() {
            assert(b@[l - 1] == 10);
        }
        if k < len {
            assert(b@[k as int] == 10);
            if k < l - 1 {
                assert(b@[k as int] != 10);
            }
        }
    }
    end
}

impl U32Reader {
    /// The whole input, read or not.
    pub closed spec fn buffer(&self) -> Seq<u8> {
        self.buf@
    }

    /// How many bytes of the input have been read.
    pub closed spec fn position(&self) -> int {
        self.pos as int
    }

    /// Creates a reader at the start of `input`.
    pub fn new(input: Vec<u8>) -> (r: U32Reader)
        ensures
            r@ == input@,
            r.buffer() == input@,
            r.position() == 0,
    {
        let r = U32Reader { buf: input, pos: 0 };
        assert(r@ =~= input@);
        r
    }

    /// Returns a mutable reference to the whole input; the read position
    /// stays where it is.
    pub fn get_mut(&mut self) -> (r: &mut Vec<u8>)
        ensures
            r@ == old(self).buffer(),
            old(self)@ == unread(old(self).buffer(), old(self).position()),
            final(self).buffer() == final(r)@,
            final(self).position() == old(self).position(),
            final(self)@ == unread(final(r)@, old(self).position()),
    {
        &mut self.buf
    }

    /// Returns the bytes not yet read.
    pub fn into_inner(self) -> (r: Vec<u8>)
        ensures
            r@ == self@,
    {
        let rest = self.rest();
        let mut r: Vec<u8> = Vec::new();
        let mut k: usize = 0;
        while k < rest.len()
            invariant
                k <= rest@.len(),
                r@ == rest@.subrange(0, k as int),
            decreases rest@.len() - k,
        {
            r.push(rest[k]);
            k = k + 1;
            assert(r@ =~= rest@.subrange(0, k as int));
        }
        assert(r@ =~= rest@);
        r
    }

    fn rest(&self) -> (r: &[u8])
        ensures
            r@ == self@,
    {
        if self.pos <= self.buf.len() {
            vstd::slice::slice_subrange(self.buf.as_slice(), self.pos, self.buf.len())
        } else {
            assert(self.buf@.subrange(0, 0) =~= Seq::<u8>::empty());
            vstd::slice::slice_subrange(self.buf.as_slice(), 0, 0)
        }
    }

    /// Whether the bytes ahead start with a `u32`, as
    /// [`U32Reader::read_until_space`] requires.
    pub fn can_read_until_space(&self) -> (r: bool)
        ensures
            r == starts_with_u32(self@),
    {
        leading_u32_fits(self.rest())
    }

    /// Reads a `u32` that ends with one delimiter byte, typically a space,
    /// and skips that byte; a number that runs to the end of the input
    /// ends there. The bytes ahead must start with a `u32`.
    pub fn read_until_space(&mut self) -> (r: u32)
        requires
            starts_with_u32(old(self)@),
        ensures
            space_read(old(self)@) == (Some(r), final(self)@),
    {
        let rest = self.rest();
        let len = rest.len();
        proof {
            lemma_number_len(rest@);
            lemma_leading_value(rest@);
        }
        match parse_leading(rest) {
            Some((v, n)) => {
                let used = if n < len {
                    n + 1
                } else {
                    n
                };
                self.skip(used);
                v
            },
            None => {
                // A `u32` ahead is always accepted by the parser.
                0
            },
        }
    }

    /// Whether a line is left that starts with a `u32`, as
    /// [`U32Reader::read_until_newline`] requires.
    pub fn can_read_until_newline(&self) -> (r: bool)
        ensures
            r == (self@.len() > 0 && starts_with_u32(first_line(self@))),
    {
        let rest = self.rest();
        if rest.len() == 0 {
            return false;
        }
        let end = first_line_len(rest);
        leading_u32_fits(vstd::slice::slice_subrange(rest, 0, end))
    }

    /// Reads a `u32` at the start of a line, and skips the rest of the line
    /// with its newline (`\n` or `\r\n`). A line must be left, and it must
    /// start with a `u32`.
    pub fn read_until_newline(&mut self) -> (r: u32)
        requires
            old(self)@.len() > 0,
            starts_with_u32(first_line(old(self)@)),
        ensures
            newline_read(old(self)@) == (Some(r), final(self)@),
    {
        let rest = self.rest();
        let end = first_line_len(rest);
        let line = vstd::slice::slice_subrange(rest, 0, end);
        proof {
            lemma_leading_value(line@);
        }
        let r = match parse_leading(line) {
            Some((v, _)) => v,
            None => {
                // A `u32` ahead is always accepted by the parser.
                0
            },
        };
        self.skip(end);
        r
    }

    /// Reads the bytes up to the next newline, or to the end of the input,
    /// and skips the newline.
    pub fn read_line(&mut self) -> (line: Vec<u8>)
        ensures
            (line@, final(self)@) == line_read(old(self)@),
    {
        let rest = self.rest();
        let len = rest.len();
        let mut line: Vec<u8> = Vec::new();
        let mut k: usize = 0;
        while k < len && rest[k] != 10
            invariant
                k <= len,
                len == rest@.len(),
                forall|i: int| 0 <= i < k ==> rest@[i] != 10,
                line@ == rest@.subrange(0, k as int),
            decreases len - k,
        {
            line.push(rest[k]);
            k = k + 1;
            assert(line@ =~= rest@.subrange(0, k as int));
        }
        let end = if k < len {
            k + 1
        } else {
            k
        };
        proof {
            lemma_line_len(rest@);
            let l = line_len(rest@);
            if l - 1 < k && l < rest@.len() {
                assert(rest@[l - 1] == 10);
            }
            if k < len {
                assert(rest@[k as int] == 10);
                if k < l - 1 {
                    assert(rest@[k as int] != 10);
                }
            }
            assert(end == l);
            if l > 0 && k == len && l == len {
                assert(rest@[l - 1] != 10);
            }
        }
        self.skip(end);
        line
    }

    fn skip(&mut self, n: usize)
        requires
            n <= old(self)@.len(),
        ensures
            final(self)@ == old(self)@.subrange(n as int, old(self)@.len() as int),
            final(self).buffer() == old(self).buffer(),
    {
        proof {
            if old(self).pos > old(self).buf@.len() {
                assert(n == 0);
            }
        }
        if self.pos <= self.buf.len() {
            self.pos = self.pos + n;
            assert(self@ =~= old(self)@.subrange(n as int, old(self)@.len() as int));
        }
    }
}

/// Reads an input that gives a count on its first line and then that many
/// pairs, one per line, the two numbers separated by one byte. Returns
/// `None` when a number cannot be read.
pub fn read_counted_pairs(input: Vec<u8>) -> (pairs: Option<Vec<(u32, u32)>>)
    ensures
        match counted_pairs(input@) {
            Some(ps) => pairs matches Some(v) && v@ == ps,
            None => pairs is None,
        },
{
    let mut reader = U32Reader::new(input);
    if !reader.can_read_until_newline() {
        return None;
    }
    let count = reader.read_until_newline();
    let ghost rest = reader@;
    let mut pairs: Vec<(u32, u32)> = Vec::new();
    let mut k: u32 = 0;
    while k < count
        invariant
            k <= count,
            newline_read(input@) == (Some(count), rest),
            pair_reads(rest, k as nat) == Some((pairs@, reader@)),
        decreases count - k,
    {
        if !reader.can_read_until_space() {
            proof {
                lemma_pair_reads_stop(rest, (k + 1) as nat, count as nat);
            }
            return None;
        }
        let x = reader.read_until_space();
        if !reader.can_read_until_newline() {
            proof {
                lemma_pair_reads_stop(rest, (k + 1) as nat, count as nat);
            }
            return None;
        }
        let y = reader.read_until_newline();
        pairs.push((x, y));
        k = k + 1;
    }
    Some(pairs)
}

} // verus!
