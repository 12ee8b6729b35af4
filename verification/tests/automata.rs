use regex_equivalence::LocalLanguage;
use regex_equivalence::Regex;
use regex_equivalence::Regex::{Alternative, Concatenation, Epsilon, Optional, Star, Terminal};
use regex_equivalence::DFA;
use regex_equivalence::NFA;
use std::collections::HashSet;

fn t(c: char) -> Box<Regex> {
    Box::new(Terminal(c))
}

fn build(r: Regex) -> DFA {
    let (l, chars) = LocalLanguage::from_regex(r);
    NFA::from_local_language(l, chars).determinize()
}

fn accepts(dfa: &DFA, word: &str) -> bool {
    let mut state = dfa.initial;
    for c in word.chars() {
        if !c.is_ascii_lowercase() {
            return false;
        }
        state = dfa.transitions[state][(c as u8 - b'a') as usize];
    }
    dfa.finals.contains(&state)
}

fn is_total(dfa: &DFA) -> bool {
    dfa.states_count == dfa.transitions.len()
        && dfa.initial < dfa.states_count
        && dfa.transitions.iter().all(|row| row.iter().all(|&s| s < dfa.states_count))
        && dfa.finals.iter().all(|&s| s < dfa.states_count)
}

fn set(states: &[usize]) -> HashSet<usize> {
    states.iter().copied().collect()
}

#[test]
fn determinize_single_terminal() {
    let dfa = build(Terminal('a'));
    // State 0 is {initial}, state 1 is {position 0}, state 2 is the empty set.
    assert_eq!(dfa.states_count, 3);
    assert_eq!(dfa.initial, 0);
    assert_eq!(dfa.finals, set(&[1]));
    let mut first = [2usize; 26];
    first[0] = 1;
    assert_eq!(dfa.transitions, vec![first, [2; 26], [2; 26]]);
}

#[test]
fn determinize_epsilon() {
    let dfa = build(Epsilon);
    assert_eq!(dfa.states_count, 2);
    assert_eq!(dfa.initial, 0);
    assert_eq!(dfa.finals, set(&[0]));
    assert_eq!(dfa.transitions, vec![[1; 26], [1; 26]]);
}

#[test]
fn determinize_numbers_states_in_discovery_order() {
    // b | a: on 'a' the first new set is found, on 'b' the second, on 'c' the empty set.
    let dfa = build(Alternative(t('b'), t('a')));
    assert_eq!(dfa.states_count, 4);
    assert_eq!(dfa.finals, set(&[1, 2]));
    let mut first = [3usize; 26];
    first[0] = 1;
    first[1] = 2;
    assert_eq!(dfa.transitions, vec![first, [3; 26], [3; 26], [3; 26]]);
}

#[test]
fn determinize_merges_nondeterministic_moves() {
    // a a | a b: after 'a' the automaton is in two positions at once.
    let dfa = build(Alternative(
        Box::new(Concatenation(t('a'), t('a'))),
        Box::new(Concatenation(t('a'), t('b'))),
    ));
    assert!(is_total(&dfa));
    assert!(accepts(&dfa, "aa"));
    assert!(accepts(&dfa, "ab"));
    assert!(!accepts(&dfa, "a"));
    assert!(!accepts(&dfa, ""));
    assert!(!accepts(&dfa, "ba"));
    assert!(!accepts(&dfa, "aab"));
    // {initial}, {0, 2}, {}, {1}, {3}
    assert_eq!(dfa.states_count, 5);
}

#[test]
fn determinize_accepts_the_language_of_the_expression() {
    // (a b)* c?
    let dfa = build(Concatenation(
        Box::new(Star(Box::new(Concatenation(t('a'), t('b'))))),
        Box::new(Optional(t('c'))),
    ));
    assert!(is_total(&dfa));
    for word in ["", "c", "ab", "abc", "abab", "ababc"] {
        assert!(accepts(&dfa, word), "{}", word);
    }
    for word in ["a", "b", "ac", "ba", "cc", "abca", "abb", "cab"] {
        assert!(!accepts(&dfa, word), "{}", word);
    }
}

#[test]
fn determinize_ignores_symbols_outside_the_alphabet() {
    let dfa = build(Concatenation(t('A'), t('a')));
    assert!(is_total(&dfa));
    // Only the initial set and the empty set are ever reached.
    assert_eq!(dfa.states_count, 2);
    assert!(dfa.finals.is_empty());
}

#[test]
fn empty_subset_is_a_trap() {
    let dfa = build(Terminal('a'));
    let trap = dfa.transitions[0][1];
    assert!(!dfa.finals.contains(&trap));
    for i in 0..26 {
        assert_eq!(dfa.transitions[trap][i], trap);
    }
}

#[test]
fn constructions_keep_the_automaton_total() {
    let a = build(Star(Box::new(Alternative(t('a'), t('b')))));
    let b = build(Concatenation(t('a'), Box::new(Star(t('b')))));
    assert!(is_total(&a));
    assert!(is_total(&b));
    let mut c = a.clone();
    c.to_complement();
    assert!(is_total(&c));
    let i = a.intersection(&b);
    assert!(is_total(&i));
    let j = c.intersection(&b);
    assert!(is_total(&j));
}

#[test]
fn complement_flips_the_final_states() {
    let mut dfa = build(Terminal('a'));
    dfa.to_complement();
    assert_eq!(dfa.states_count, 3);
    assert_eq!(dfa.initial, 0);
    assert_eq!(dfa.finals, set(&[0, 2]));
    assert!(accepts(&dfa, ""));
    assert!(!accepts(&dfa, "a"));
    assert!(accepts(&dfa, "aa"));
    assert!(accepts(&dfa, "b"));
}

#[test]
fn complement_twice_gives_back_the_final_states() {
    for r in [
        Terminal('a'),
        Epsilon,
        Star(t('a')),
        Concatenation(t('a'), Box::new(Optional(t('b')))),
    ] {
        let mut dfa = build(r);
        let finals = dfa.finals.clone();
        let transitions = dfa.transitions.clone();
        dfa.to_complement();
        assert_ne!(dfa.finals, finals);
        dfa.to_complement();
        assert_eq!(dfa.finals, finals);
        assert_eq!(dfa.transitions, transitions);
    }
}

#[test]
fn complement_drops_final_states_out_of_range() {
    let mut dfa = DFA {
        states_count: 2,
        initial: 0,
        finals: set(&[1, 5]),
        transitions: vec![[1; 26], [1; 26]],
    };
    dfa.to_complement();
    assert_eq!(dfa.finals, set(&[0]));
    dfa.to_complement();
    assert_eq!(dfa.finals, set(&[1]));
}

#[test]
fn intersection_of_two_small_automata() {
    // a* and a | b: only "a" is in both.
    let a = build(Star(t('a')));
    let b = build(Alternative(t('a'), t('b')));
    let i = a.intersection(&b);
    assert!(is_total(&i));
    assert_eq!(i.initial, 0);
    assert!(i.states_count <= a.states_count * b.states_count);
    assert!(accepts(&i, "a"));
    for word in ["", "b", "aa", "ab", "ba"] {
        assert!(!accepts(&i, word), "{}", word);
    }
}

#[test]
fn intersection_is_final_where_both_are() {
    let a = build(Star(Box::new(Concatenation(t('a'), t('b')))));
    let b = build(Concatenation(Box::new(Star(t('a'))), Box::new(Star(t('b')))));
    let i = a.intersection(&b);
    assert!(is_total(&i));
    for word in ["", "a", "b", "ab", "aab", "abab", "abb", "ba", "aabb", "c"] {
        assert_eq!(accepts(&i, word), accepts(&a, word) && accepts(&b, word), "{}", word);
    }
    assert!(accepts(&i, ""));
    assert!(accepts(&i, "ab"));
    assert!(!accepts(&i, "abab"));
}

#[test]
fn intersection_numbers_pairs_in_discovery_order() {
    // Both automata: state 0 initial, 1 after 'a' (final), 2 the trap.
    let a = build(Terminal('a'));
    let i = a.intersection(&a);
    // Pairs found: (0,0), then (1,1) on 'a', then (2,2) on 'b'.
    assert_eq!(i.states_count, 3);
    assert_eq!(i.finals, set(&[1]));
    let mut first = [2usize; 26];
    first[0] = 1;
    assert_eq!(i.transitions, vec![first, [2; 26], [2; 26]]);
}

#[test]
fn intersection_with_initial_states_both_final() {
    let a = build(Star(t('a')));
    let b = build(Optional(t('b')));
    let i = a.intersection(&b);
    assert!(i.finals.contains(&0));
    assert!(accepts(&i, ""));
    assert!(!accepts(&i, "a"));
    assert!(!accepts(&i, "b"));
}

#[test]
fn inclusion_of_languages() {
    let a = build(Terminal('a'));
    let a_or_b = build(Alternative(t('a'), t('b')));
    let a_star = build(Star(t('a')));
    assert!(a.is_included_in(a_or_b.clone()));
    assert!(!a_or_b.is_included_in(a.clone()));
    assert!(a.is_included_in(a_star.clone()));
    assert!(!a_star.is_included_in(a.clone()));
    assert!(!a_or_b.is_included_in(a_star.clone()));
    assert!(!a_star.is_included_in(a_or_b.clone()));
    assert!(a.is_included_in(a.clone()));
}

#[test]
fn inclusion_of_the_empty_language() {
    let nothing = build(Terminal('A'));
    let a = build(Terminal('a'));
    assert!(nothing.is_included_in(a.clone()));
    assert!(!a.is_included_in(nothing.clone()));
    assert!(nothing.is_included_in(nothing.clone()));
}

#[test]
fn equality_of_languages() {
    let left = build(Star(t('a')));
    let right = build(Concatenation(Box::new(Optional(t('a'))), Box::new(Star(t('a')))));
    assert!(DFA::equals(left.clone(), right.clone()));
    assert!(DFA::equals(right, left.clone()));
    let plus = build(Concatenation(t('a'), Box::new(Star(t('a')))));
    assert!(!DFA::equals(left.clone(), plus.clone()));
    assert!(!DFA::equals(plus, left));
}

#[test]
fn clone_of_an_automaton_is_independent() {
    let dfa = build(Concatenation(t('a'), t('b')));
    let mut copy = dfa.clone();
    assert_eq!(copy.states_count, dfa.states_count);
    assert_eq!(copy.initial, dfa.initial);
    assert_eq!(copy.finals, dfa.finals);
    assert_eq!(copy.transitions, dfa.transitions);
    copy.to_complement();
    assert_ne!(copy.finals, dfa.finals);
    assert!(accepts(&dfa, "ab"));
    assert!(!accepts(&copy, "ab"));
}

#[test]
fn clone_of_a_nondeterministic_automaton_determinizes_alike() {
    let (l, chars) = LocalLanguage::from_regex(Star(Box::new(Concatenation(t('a'), t('b')))));
    let nfa = NFA::from_local_language(l, chars);
    let copy = nfa.clone();
    let first = nfa.determinize();
    let second = copy.determinize();
    assert_eq!(first.states_count, second.states_count);
    assert_eq!(first.finals, second.finals);
    assert_eq!(first.transitions, second.transitions);
}

#[test]
fn letters_by_rank() {
    assert_eq!(regex_equivalence::alphabet::letter(0), 'a');
    assert_eq!(regex_equivalence::alphabet::letter(1), 'b');
    assert_eq!(regex_equivalence::alphabet::letter(25), 'z');
}
