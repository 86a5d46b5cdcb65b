//! A sign that reads the same after a half turn.

use vstd::prelude::*;

verus! {

/// The capital letters that look the same after a rotation by 180 degrees.
pub open spec fn on_sign(letter: u8) -> bool {
    letter == 72u8 || letter == 73u8 || letter == 78u8 || letter == 79u8 || letter == 83u8 || letter
        == 88u8 || letter == 90u8
}

/// Whether `letter` is one of `H I N O S X Z`.
fn sign_letter(letter: u8) -> (r: bool)
    ensures
        r == on_sign(letter),
{
    letter == 'H' as u8 || letter == 'I' as u8 || letter == 'N' as u8 || letter == 'O' as u8
        || letter == 'S' as u8 || letter == 'X' as u8 || letter == 'Z' as u8
}

/// Returns whether every letter of `letters` is one of `H I N O S X Z`.
pub fn is_sign(letters: &[u8]) -> (r: bool)
    ensures
        r == forall|i: int| 0 <= i < letters@.len() ==> on_sign(#[trigger] letters@[i]),
{
    let mut i: usize = 0;
    while i < letters.len()
        invariant
            i <= letters@.len(),
            forall|j: int| 0 <= j < i ==> on_sign(#[trigger] letters@[j]),
        decreases letters@.len() - i,
    {
        if !sign_letter(letters[i]) {
            return false;
        }
        i = i + 1;
    }
    true
}

/// `b` is an ASCII capital letter.
pub open spec fn is_capital(b: u8) -> bool {
    65 <= b <= 90
}

/// Returns the capital letters at the start of `input`: its bytes up to the
/// first one that is not an ASCII capital letter (a newline, say).
pub fn leading_capitals(input: &[u8]) -> (letters: Vec<u8>)
    ensures
        letters@.len() <= input@.len(),
        letters@ == input@.take(letters@.len() as int),
        forall|i: int| 0 <= i < letters@.len() ==> is_capital(#[trigger] letters@[i]),
        letters@.len() == input@.len() || !is_capital(input@[letters@.len() as int]),
{
    let mut letters: Vec<u8> = Vec::new();
    let mut k: usize = 0;
    while k < input.len() && input[k] >= 65 && input[k] <= 90
        invariant
            k <= input@.len(),
            letters@ == input@.take(k as int),
            forall|i: int| 0 <= i < k ==> is_capital(#[trigger] input@[i]),
        decreases input@.len() - k,
    {
        letters.push(input[k]);
        k = k + 1;
        assert(letters@ =~= input@.take(k as int));
    }
    letters
}

} // verus!
