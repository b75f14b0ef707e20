//! The fixed alphabets of the plaintexts.
use vstd::prelude::*;

verus! {

/// The separators: apostrophe, double quote, space, comma, period.
pub open spec fn separators() -> Seq<u8> {
    seq![39u8, 34u8, 32u8, 44u8, 46u8]
}

/// The word alphabet: the lowercase ASCII letters, then the separators.
pub open spec fn word_alphabet() -> Seq<u8> {
    Seq::new(26, |i: int| (97 + i) as u8) + separators()
}

/// The separator alphabet, in the order in which the search offers it.
pub fn special() -> (r: &'static [u8])
    ensures
        r@ == separators(),
{
    let r: &'static [u8] = &[39, 34, 32, 44, 46];
    assert(r@ =~= separators());
    r
}

/// The word alphabet, in the order in which the search offers it.
pub fn charset() -> (r: &'static [u8])
    ensures
        r@ == word_alphabet(),
{
    let r: &'static [u8] = &[
        97, 98, 99, 100, 101, 102, 103, 104, 105, 106, 107, 108, 109, 110, 111, 112, 113, 114, 115, 116, 117, 118, 119, 120, 121, 122, 39, 34, 32, 44, 46,
    ];
    assert(r@ =~= word_alphabet());
    r
}

} // verus!
