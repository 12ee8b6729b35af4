//! Counting arguments: how many distinct pairs of states, and how many
//! distinct sets of states, there can be. They bound the number of states
//! that the lazy constructions discover.
use vstd::prelude::*;
use vstd::arithmetic::power2::{pow2, lemma_pow2_unfold, lemma2_to64};
use vstd::set_lib::{set_int_range, lemma_int_range, lemma_len_subset};

verus! {

/// At most `m` pairwise distinct integers lie in `0..m`.
pub proof fn lemma_distinct_below(codes: Seq<int>, m: int)
    requires
        0 <= m,
        forall|i: int| 0 <= i < codes.len() ==> 0 <= #[trigger] codes[i] < m,
        codes.no_duplicates(),
    ensures
        codes.len() <= m,
{
    if codes.len() > 0 {
        assert(0 <= codes[0] < m);
        codes.unique_seq_to_set();
        lemma_int_range(0, m);
        assert(codes.to_set().subset_of(set_int_range(0, m))) by {
            assert forall|x: int| codes.to_set().contains(x) implies set_int_range(0, m).contains(
                x,
            ) by {
                let i = choose|i: int| 0 <= i < codes.len() && codes[i] == x;
                assert(0 <= codes[i] < m);
            }
        }
        lemma_len_subset(codes.to_set(), set_int_range(0, m));
    }
}

/// The number that stands for the pair `(x, y)` among pairs whose second
/// component is below `nb`.
pub open spec fn pair_code(x: int, y: int, nb: int) -> int {
    x * nb + y
}

/// The number of a pair of a number below `na` and a number below `nb` is
/// below `na * nb`.
proof fn lemma_pair_code_below(x: int, y: int, na: int, nb: int)
    requires
        0 <= x < na,
        0 <= y < nb,
    ensures
        0 <= pair_code(x, y, nb) < na * nb,
{
    assert(x * nb + nb <= na * nb) by (nonlinear_arith)
        requires
            0 <= x < na,
            0 < nb,
    ;
    assert(0 <= x * nb) by (nonlinear_arith)
        requires
            0 <= x,
            0 < nb,
    ;
}

/// Two pairs with the same number are the same pair.
proof fn lemma_pair_code_injective(x1: int, y1: int, x2: int, y2: int, nb: int)
    requires
        0 <= y1 < nb,
        0 <= y2 < nb,
        pair_code(x1, y1, nb) == pair_code(x2, y2, nb),
    ensures
        x1 == x2,
        y1 == y2,
{
    if x1 < x2 {
        assert(x1 * nb + nb <= x2 * nb) by (nonlinear_arith)
            requires
                x1 < x2,
                0 < nb,
        ;
    } else if x2 < x1 {
        assert(x2 * nb + nb <= x1 * nb) by (nonlinear_arith)
            requires
                x2 < x1,
                0 < nb,
        ;
    }
}

/// There are at most `na * nb` pairwise distinct pairs of a number below
/// `na` and a number below `nb`.
pub proof fn lemma_distinct_pairs(pairs: Seq<(usize, usize)>, na: int, nb: int)
    requires
        0 <= na,
        0 <= nb,
        forall|i: int| 0 <= i < pairs.len() ==> (#[trigger] pairs[i]).0 < na && pairs[i].1 < nb,
        forall|i: int, j: int|
            0 <= i < pairs.len() && 0 <= j < pairs.len() && i != j ==> pairs[i] != pairs[j],
    ensures
        pairs.len() <= na * nb,
{
    let codes = Seq::new(pairs.len(), |i: int| pair_code(pairs[i].0 as int, pairs[i].1 as int, nb));
    assert forall|i: int| 0 <= i < codes.len() implies 0 <= #[trigger] codes[i] < na * nb by {
        lemma_pair_code_below(pairs[i].0 as int, pairs[i].1 as int, na, nb);
    }
    assert forall|i: int, j: int|
        0 <= i < codes.len() && 0 <= j < codes.len() && i != j implies codes[i] != codes[j] by {
        if codes[i] == codes[j] {
            lemma_pair_code_injective(
                pairs[i].0 as int,
                pairs[i].1 as int,
                pairs[j].0 as int,
                pairs[j].1 as int,
                nb,
            );
            assert(pairs[i] == pairs[j]);
        }
    }
    assert(0 <= na * nb) by (nonlinear_arith)
        requires
            0 <= na,
            0 <= nb,
    ;
    lemma_distinct_below(codes, na * nb);
}

/// The number whose binary digits are the entries of `bits`, the last entry
/// being the lowest digit.
pub open spec fn bits_code(bits: Seq<bool>) -> int
    decreases bits.len(),
{
    if bits.len() == 0 {
        0
    } else {
        2 * bits_code(bits.drop_last()) + if bits.last() {
            1int
        } else {
            0int
        }
    }
}

/// The number of a sequence of `n` booleans is below `2^n`.
proof fn lemma_bits_code_below(bits: Seq<bool>)
    ensures
        0 <= bits_code(bits) < pow2(bits.len()),
    decreases bits.len(),
{
    if bits.len() == 0 {
        lemma2_to64();
    } else {
        lemma_bits_code_below(bits.drop_last());
        lemma_pow2_unfold(bits.len());
    }
}

/// Two sequences of booleans of one length with the same number are the same.
proof fn lemma_bits_code_injective(a: Seq<bool>, b: Seq<bool>)
    requires
        a.len() == b.len(),
        bits_code(a) == bits_code(b),
    ensures
        a == b,
    decreases a.len(),
{
    if a.len() > 0 {
        lemma_bits_code_injective(a.drop_last(), b.drop_last());
        assert(a =~= a.drop_last().push(a.last()));
        assert(b =~= b.drop_last().push(b.last()));
    } else {
        assert(a =~= b);
    }
}

/// There are at most `2^n` pairwise distinct sequences of `n` booleans.
pub proof fn lemma_distinct_bits(keys: Seq<Seq<bool>>, n: nat)
    requires
        forall|i: int| 0 <= i < keys.len() ==> (#[trigger] keys[i]).len() == n,
        forall|i: int, j: int|
            0 <= i < keys.len() && 0 <= j < keys.len() && i != j ==> keys[i] != keys[j],
    ensures
        keys.len() <= pow2(n),
{
    let codes = Seq::new(keys.len(), |i: int| bits_code(keys[i]));
    assert forall|i: int| 0 <= i < codes.len() implies 0 <= #[trigger] codes[i] < pow2(n) by {
        lemma_bits_code_below(keys[i]);
    }
    assert forall|i: int, j: int|
        0 <= i < codes.len() && 0 <= j < codes.len() && i != j implies codes[i] != codes[j] by {
        if codes[i] == codes[j] {
            lemma_bits_code_injective(keys[i], keys[j]);
        }
    }
    lemma_distinct_below(codes, pow2(n) as int);
}

} // verus!
