//! Coarse script classification of characters.
//!
//! Each character belongs to the first matching class of a fixed priority
//! list; a string is labelled by the first class that any of its characters
//! belongs to.  The single-letter labels are the ones used inside feature
//! strings and model files.

use vstd::prelude::*;

verus! {

/// The script classes, in match priority order.
#[derive(Clone, Copy, PartialEq, Eq, Structural, Debug)]
pub enum ScriptClass {
    /// Kanji numerals, labelled "M".
    KanjiNumeral,
    /// Kanji, labelled "H".
    Kanji,
    /// Hiragana, labelled "I".
    Hiragana,
    /// Katakana (full- and half-width), labelled "K".
    Katakana,
    /// Latin letters (ASCII and full-width), labelled "A".
    Latin,
    /// Decimal digits (ASCII and full-width), labelled "N".
    Digit,
}

/// Whether `c` belongs to script class `k`.
///
/// The ranges are given as Unicode scalar values; for example `0x3041` to
/// `0x3093` is the hiragana block and `0x4E00` to `0x9FA0` the main kanji
/// block.
pub open spec fn char_in_class(c: char, k: ScriptClass) -> bool {
    let u = c as u32;
    match k {
        // The fifteen numeral ideographs.
        ScriptClass::KanjiNumeral => u == 0x4E00 || u == 0x4E8C || u == 0x4E09 || u == 0x56DB
            || u == 0x4E94 || u == 0x516D || u == 0x4E03 || u == 0x516B || u == 0x4E5D
            || u == 0x5341 || u == 0x767E || u == 0x5343 || u == 0x4E07 || u == 0x5104
            || u == 0x5146,
        ScriptClass::Kanji => (0x4E00 <= u && u <= 0x9FA0) || u == 0x3005 || u == 0x3006
            || u == 0x30F5 || u == 0x30F6,
        ScriptClass::Hiragana => 0x3041 <= u && u <= 0x3093,
        ScriptClass::Katakana => (0x30A1 <= u && u <= 0x30F4) || u == 0x30FC || (0xFF71 <= u
            && u <= 0xFF9D) || u == 0xFF9E || u == 0xFF9F,
        ScriptClass::Latin => (0x61 <= u && u <= 0x7A) || (0x41 <= u && u <= 0x5A) || (0xFF41 <= u
            && u <= 0xFF5A) || (0xFF21 <= u && u <= 0xFF3A),
        ScriptClass::Digit => (0x30 <= u && u <= 0x39) || (0xFF10 <= u && u <= 0xFF19),
    }
}

/// Whether some character of `s` belongs to class `k`.
pub open spec fn seq_has_class(s: Seq<char>, k: ScriptClass) -> bool {
    exists|i: int| 0 <= i < s.len() && char_in_class(s[i], k)
}

/// The label of a string: that of the first class, in priority order, that
/// any of its characters belongs to, or "O" (other) when none matches.
pub open spec fn spec_char_type(s: Seq<char>) -> Seq<char> {
    if seq_has_class(s, ScriptClass::KanjiNumeral) {
        "M"@
    } else if seq_has_class(s, ScriptClass::Kanji) {
        "H"@
    } else if seq_has_class(s, ScriptClass::Hiragana) {
        "I"@
    } else if seq_has_class(s, ScriptClass::Katakana) {
        "K"@
    } else if seq_has_class(s, ScriptClass::Latin) {
        "A"@
    } else if seq_has_class(s, ScriptClass::Digit) {
        "N"@
    } else {
        "O"@
    }
}

/// Whether one character belongs to class `k`.
fn exec_char_in_class(c: char, k: ScriptClass) -> (b: bool)
    ensures
        b == char_in_class(c, k),
{
    let u = c as u32;
    match k {
        ScriptClass::KanjiNumeral => u == 0x4E00 || u == 0x4E8C || u == 0x4E09 || u == 0x56DB
            || u == 0x4E94 || u == 0x516D || u == 0x4E03 || u == 0x516B || u == 0x4E5D
            || u == 0x5341 || u == 0x767E || u == 0x5343 || u == 0x4E07 || u == 0x5104
            || u == 0x5146,
        ScriptClass::Kanji => (0x4E00 <= u && u <= 0x9FA0) || u == 0x3005 || u == 0x3006
            || u == 0x30F5 || u == 0x30F6,
        ScriptClass::Hiragana => 0x3041 <= u && u <= 0x3093,
        ScriptClass::Katakana => (0x30A1 <= u && u <= 0x30F4) || u == 0x30FC || (0xFF71 <= u
            && u <= 0xFF9D) || u == 0xFF9E || u == 0xFF9F,
        ScriptClass::Latin => (0x61 <= u && u <= 0x7A) || (0x41 <= u && u <= 0x5A) || (0xFF41 <= u
            && u <= 0xFF5A) || (0xFF21 <= u && u <= 0xFF3A),
        ScriptClass::Digit => (0x30 <= u && u <= 0x39) || (0xFF10 <= u && u <= 0xFF19),
    }
}

/// Whether some character of `s` belongs to class `k`.
fn str_has_class(s: &str, k: ScriptClass) -> (b: bool)
    ensures
        b == seq_has_class(s@, k),
{
    let n = s.unicode_len();
    let mut i: usize = 0;
    while i < n
        invariant
            n == s@.len(),
            0 <= i <= n,
            forall|j: int| 0 <= j < i ==> !char_in_class(s@[j], k),
        decreases n - i,
    {
        let c = s.get_char(i);
        if exec_char_in_class(c, k) {
            return true;
        }
        i += 1;
    }
    false
}

/// The script label of a string: the label of the first class, in priority
/// order, that any of its characters belongs to, "O" when none matches.
pub fn str_type(s: &str) -> (r: &'static str)
    ensures
        r@ == spec_char_type(s@),
{
    if str_has_class(s, ScriptClass::KanjiNumeral) {
        "M"
    } else if str_has_class(s, ScriptClass::Kanji) {
        "H"
    } else if str_has_class(s, ScriptClass::Hiragana) {
        "I"
    } else if str_has_class(s, ScriptClass::Katakana) {
        "K"
    } else if str_has_class(s, ScriptClass::Latin) {
        "A"
    } else if str_has_class(s, ScriptClass::Digit) {
        "N"
    } else {
        "O"
    }
}

/// The script label of one character.
pub fn classify(c: char) -> (r: &'static str)
    ensures
        r@ == spec_char_type(seq![c]),
{
    let s = crate::strutil::char_to_string(c);
    str_type(s.as_str())
}

} // verus!
