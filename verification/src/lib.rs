//! Deciding whether two regular expressions over the lowercase Latin letters
//! denote the same language.
//!
//! An expression is linearised into a local language, turned into a
//! nondeterministic automaton, determinised, and the two resulting
//! deterministic automata are compared by mutual inclusion.
use vstd::prelude::*;

pub mod alphabet;
pub mod counting;
pub mod dfa;
pub mod exploration;
pub mod glushkov;
pub mod local_language;
pub mod nfa;
pub mod regex;

pub use dfa::DFA;
pub use local_language::LocalLanguage;
pub use nfa::NFA;
pub use regex::Regex;

use alphabet::is_word;

verus! {

/// Whether `a` and `b` match the same words over the alphabet.
pub open spec fn same_language(a: Regex, b: Regex) -> bool {
    forall|w: Seq<char>| #[trigger] is_word(w) ==> (a.matches(w) <==> b.matches(w))
}

/// Every expression matches the same words as itself.
pub proof fn lemma_same_language_reflexive(r: Regex)
    ensures
        same_language(r, r),
{
}

/// Two expressions match the same words whichever is named first.
pub proof fn lemma_same_language_symmetric(a: Regex, b: Regex)
    ensures
        same_language(a, b) == same_language(b, a),
{
}

/// Two expressions that match the same words as a third match the same words.
pub proof fn lemma_same_language_transitive(a: Regex, b: Regex, c: Regex)
    requires
        same_language(a, b),
        same_language(b, c),
    ensures
        same_language(a, c),
{
    assert forall|w: Seq<char>| #[trigger] is_word(w) implies (a.matches(w) <==> c.matches(w)) by {
        assert(a.matches(w) <==> b.matches(w));
        assert(b.matches(w) <==> c.matches(w));
    }
}

/// A complete deterministic automaton that accepts the words over the
/// alphabet that `r` matches.
fn dfa_from_regex(r: Regex) -> (dfa: DFA)
    ensures
        dfa.wf(),
        dfa.initial == 0,
        dfa.all_reachable(),
        forall|w: Seq<char>| #[trigger] dfa.accepts(w) <==> is_word(w) && r.matches(w),
{
    let (ll, chars) = LocalLanguage::from_regex(r);
    let nfa = NFA::from_local_language(ll, chars);
    let dfa = nfa.determinize();
    proof {
        assert forall|w: Seq<char>| #[trigger] dfa.accepts(w) <==> is_word(w) && r.matches(w) by {
            assert(nfa@.accepts(w) <==> ll@.recognizes(chars@, w));
            assert(r.matches(w) <==> ll@.recognizes(chars@, w));
        }
    }
    dfa
}

/// Whether the two expressions match the same words over the alphabet.
pub fn is_equivalent(reg1: &Regex, reg2: &Regex) -> (res: bool)
    ensures
        res == same_language(*reg1, *reg2),
        *reg1 == *reg2 ==> res,
{
    let first = dfa_from_regex(reg1.clone());
    let second = dfa_from_regex(reg2.clone());
    let res = DFA::equals(first, second);
    proof {
        if res {
            assert forall|w: Seq<char>| #[trigger] is_word(w) implies (reg1.matches(w)
                <==> reg2.matches(w)) by {
                assert(first.accepts(w) <==> second.accepts(w));
            }
        } else {
            let w = choose|w: Seq<char>| !(#[trigger] first.accepts(w) <==> second.accepts(w));
            assert(is_word(w));
            assert(!(reg1.matches(w) <==> reg2.matches(w)));
        }
    }
    res
}

} // verus!
