//! The fixed alphabet: the 26 lowercase Latin letters, ranked from 0 to 25.
use vstd::prelude::*;

verus! {

/// Whether `c` belongs to the alphabet.
pub open spec fn is_symbol(c: char) -> bool {
    'a' <= c <= 'z'
}

/// The rank of a symbol within the alphabet (`'a'` has rank 0).
pub open spec fn rank(c: char) -> int {
    c as int - 97
}

/// The symbol of a given rank.
pub open spec fn symbol(i: int) -> char {
    ((i + 97) as u8) as char
}

/// A word is a finite sequence of symbols of the alphabet.
pub open spec fn is_word(w: Seq<char>) -> bool {
    forall|i: int| 0 <= i < w.len() ==> is_symbol(#[trigger] w[i])
}

/// `rank` and `symbol` are inverse bijections between the alphabet and `0..26`.
pub proof fn lemma_rank_symbol()
    ensures
        forall|i: int| 0 <= i < 26 ==> is_symbol(#[trigger] symbol(i)) && rank(symbol(i)) == i,
        forall|c: char| is_symbol(c) ==> 0 <= #[trigger] rank(c) < 26 && symbol(rank(c)) == c,
{
}

/// The symbol of rank `i`.
pub fn letter(i: usize) -> (c: char)
    requires
        i < 26,
    ensures
        c == symbol(i as int),
        is_symbol(c),
        rank(c) == i,
{
    let b: u8 = 97u8 + (i as u8);
    b as char
}

} // verus!
