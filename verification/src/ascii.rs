//! Byte-level ASCII classification and small executable helpers shared by the
//! naming, substitution and rendering modules.

use vstd::prelude::*;

verus! {

/// True of the ASCII bytes `'A'..='Z'`.
pub open spec fn is_upper(c: u8) -> bool {
    65 <= c && c <= 90
}

/// True of the ASCII bytes `'a'..='z'`.
pub open spec fn is_lower(c: u8) -> bool {
    97 <= c && c <= 122
}

/// True of the ASCII bytes `'0'..='9'`.
pub open spec fn is_digit(c: u8) -> bool {
    48 <= c && c <= 57
}

/// An ASCII letter.
pub open spec fn is_letter(c: u8) -> bool {
    is_upper(c) || is_lower(c)
}

/// A byte that belongs to a word: a letter or a digit. Every other byte acts
/// as a separator between words.
pub open spec fn is_word_byte(c: u8) -> bool {
    is_upper(c) || is_lower(c) || is_digit(c)
}

/// Lowercase one ASCII byte; other bytes are unchanged.
pub open spec fn to_lower(c: u8) -> u8 {
    if is_upper(c) {
        (c + 32) as u8
    } else {
        c
    }
}

/// Uppercase one ASCII byte; other bytes are unchanged.
pub open spec fn to_upper(c: u8) -> u8 {
    if is_lower(c) {
        (c - 32) as u8
    } else {
        c
    }
}

/// Executable check for `is_upper`.
pub fn upper_byte(c: u8) -> (r: bool)
    ensures
        r == is_upper(c),
{
    65 <= c && c <= 90
}

/// Executable check for `is_lower`.
pub fn lower_byte(c: u8) -> (r: bool)
    ensures
        r == is_lower(c),
{
    97 <= c && c <= 122
}

/// Executable check for `is_digit`.
pub fn digit_byte(c: u8) -> (r: bool)
    ensures
        r == is_digit(c),
{
    48 <= c && c <= 57
}

/// Executable check for `is_word_byte`.
pub fn word_byte(c: u8) -> (r: bool)
    ensures
        r == is_word_byte(c),
{
    upper_byte(c) || lower_byte(c) || digit_byte(c)
}

/// Executable ASCII lowercasing of one byte.
pub fn to_lower_byte(c: u8) -> (r: u8)
    ensures
        r == to_lower(c),
{
    if upper_byte(c) {
        c + 32
    } else {
        c
    }
}

/// Executable ASCII uppercasing of one byte.
pub fn to_upper_byte(c: u8) -> (r: u8)
    ensures
        r == to_upper(c),
{
    if lower_byte(c) {
        c - 32
    } else {
        c
    }
}

/// Append every byte of `piece` to `out`.
pub fn push_all(out: &mut Vec<u8>, piece: &[u8])
    ensures
        final(out)@ == old(out)@ + piece@,
{
    let mut j: usize = 0;
    while j < piece.len()
        invariant
            j <= piece@.len(),
            out@ == old(out)@ + piece@.take(j as int),
        decreases piece@.len() - j,
    {
        out.push(piece[j]);
        assert(piece@.take(j as int + 1) =~= piece@.take(j as int).push(piece@[j as int]));
        j = j + 1;
    }
    assert(piece@.take(piece@.len() as int) =~= piece@);
}

/// A fresh vector holding the bytes of a slice.
pub fn copy_bytes(b: &[u8]) -> (r: Vec<u8>)
    ensures
        r@ == b@,
{
    let mut r: Vec<u8> = Vec::new();
    push_all(&mut r, b);
    assert(r@ =~= b@);
    r
}

/// Whether two byte slices hold the same bytes.
pub fn bytes_eq(a: &[u8], b: &[u8]) -> (r: bool)
    ensures
        r == (a@ == b@),
{
    if a.len() != b.len() {
        assert(a@ != b@);
        return false;
    }
    let mut j: usize = 0;
    while j < a.len()
        invariant
            j <= a@.len(),
            a@.len() == b@.len(),
            forall|k: int| 0 <= k < j ==> a@[k] == b@[k],
        decreases a@.len() - j,
    {
        if a[j] != b[j] {
            assert(a@ != b@);
            return false;
        }
        j = j + 1;
    }
    assert(a@ =~= b@);
    true
}

} // verus!
