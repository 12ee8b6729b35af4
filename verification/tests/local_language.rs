use regex_equivalence::LocalLanguage;
use regex_equivalence::Regex;
use regex_equivalence::Regex::{Alternative, Concatenation, Epsilon, Optional, Star, Terminal};

fn sorted(mut v: Vec<usize>) -> Vec<usize> {
    v.sort();
    v.dedup();
    v
}

fn sorted_pairs(mut v: Vec<(usize, usize)>) -> Vec<(usize, usize)> {
    v.sort();
    v.dedup();
    v
}

fn t(c: char) -> Box<Regex> {
    Box::new(Terminal(c))
}

#[test]
fn literal_has_one_position() {
    let l = LocalLanguage::from_litteral(3);
    assert!(!l.accept_empty);
    assert_eq!(l.prefixes, vec![3]);
    assert_eq!(l.suffixes, vec![3]);
    assert!(l.factors.is_empty());
}

#[test]
fn empty_accepts_only_the_empty_word() {
    let l = LocalLanguage::empty();
    assert!(l.accept_empty);
    assert!(l.prefixes.is_empty());
    assert!(l.suffixes.is_empty());
    assert!(l.factors.is_empty());
}

#[test]
fn concatenation_of_two_literals() {
    let mut l = LocalLanguage::from_litteral(0);
    l.concatenation(LocalLanguage::from_litteral(1));
    assert!(!l.accept_empty);
    assert_eq!(sorted(l.prefixes), vec![0]);
    assert_eq!(sorted(l.suffixes), vec![1]);
    assert_eq!(sorted_pairs(l.factors), vec![(0, 1)]);
}

#[test]
fn concatenation_with_optional_left_operand() {
    let mut l = LocalLanguage::from_litteral(0);
    l.optional();
    l.concatenation(LocalLanguage::from_litteral(1));
    assert!(!l.accept_empty);
    assert_eq!(sorted(l.prefixes), vec![0, 1]);
    assert_eq!(sorted(l.suffixes), vec![1]);
    assert_eq!(sorted_pairs(l.factors), vec![(0, 1)]);
}

#[test]
fn concatenation_with_optional_right_operand() {
    let mut l = LocalLanguage::from_litteral(0);
    let mut r = LocalLanguage::from_litteral(1);
    r.optional();
    l.concatenation(r);
    assert!(!l.accept_empty);
    assert_eq!(sorted(l.prefixes), vec![0]);
    assert_eq!(sorted(l.suffixes), vec![0, 1]);
    assert_eq!(sorted_pairs(l.factors), vec![(0, 1)]);
}

#[test]
fn concatenation_of_two_optional_operands() {
    let mut l = LocalLanguage::from_litteral(0);
    l.optional();
    let mut r = LocalLanguage::from_litteral(1);
    r.optional();
    l.concatenation(r);
    assert!(l.accept_empty);
    assert_eq!(sorted(l.prefixes), vec![0, 1]);
    assert_eq!(sorted(l.suffixes), vec![0, 1]);
    assert_eq!(sorted_pairs(l.factors), vec![(0, 1)]);
}

#[test]
fn concatenation_bridges_every_suffix_to_every_prefix() {
    let mut left = LocalLanguage::from_litteral(0);
    left.either(LocalLanguage::from_litteral(1));
    let mut right = LocalLanguage::from_litteral(2);
    right.either(LocalLanguage::from_litteral(3));
    left.concatenation(right);
    assert!(!left.accept_empty);
    assert_eq!(sorted(left.prefixes), vec![0, 1]);
    assert_eq!(sorted(left.suffixes), vec![2, 3]);
    assert_eq!(sorted_pairs(left.factors), vec![(0, 2), (0, 3), (1, 2), (1, 3)]);
}

#[test]
fn either_unites_the_operands() {
    let mut l = LocalLanguage::from_litteral(0);
    l.concatenation(LocalLanguage::from_litteral(1));
    let r = LocalLanguage::empty();
    l.either(r);
    assert!(l.accept_empty);
    assert_eq!(sorted(l.prefixes), vec![0]);
    assert_eq!(sorted(l.suffixes), vec![1]);
    assert_eq!(sorted_pairs(l.factors), vec![(0, 1)]);

    let mut a = LocalLanguage::from_litteral(4);
    a.either(LocalLanguage::from_litteral(7));
    assert!(!a.accept_empty);
    assert_eq!(sorted(a.prefixes), vec![4, 7]);
    assert_eq!(sorted(a.suffixes), vec![4, 7]);
    assert!(a.factors.is_empty());
}

#[test]
fn optional_only_adds_the_empty_word() {
    let mut l = LocalLanguage::from_litteral(5);
    l.optional();
    assert!(l.accept_empty);
    assert_eq!(l.prefixes, vec![5]);
    assert_eq!(l.suffixes, vec![5]);
    assert!(l.factors.is_empty());
}

#[test]
fn repeat_links_suffixes_back_to_prefixes() {
    let mut l = LocalLanguage::from_litteral(0);
    l.concatenation(LocalLanguage::from_litteral(1));
    l.repeat();
    assert!(l.accept_empty);
    assert_eq!(sorted(l.prefixes), vec![0]);
    assert_eq!(sorted(l.suffixes), vec![1]);
    assert_eq!(sorted_pairs(l.factors), vec![(0, 1), (1, 0)]);
}

#[test]
fn from_regex_numbers_terminals_from_left_to_right() {
    // (a b)* | a?
    let r = Alternative(
        Box::new(Star(Box::new(Concatenation(t('a'), t('b'))))),
        Box::new(Optional(t('a'))),
    );
    let (l, chars) = LocalLanguage::from_regex(r);
    assert_eq!(chars, vec!['a', 'b', 'a']);
    assert!(l.accept_empty);
    assert_eq!(sorted(l.prefixes), vec![0, 2]);
    assert_eq!(sorted(l.suffixes), vec![1, 2]);
    assert_eq!(sorted_pairs(l.factors), vec![(0, 1), (1, 0)]);
}

#[test]
fn from_regex_of_epsilon_and_terminal() {
    let (l, chars) = LocalLanguage::from_regex(Epsilon);
    assert!(chars.is_empty());
    assert!(l.accept_empty);
    assert!(l.prefixes.is_empty() && l.suffixes.is_empty() && l.factors.is_empty());

    let (l, chars) = LocalLanguage::from_regex(Terminal('q'));
    assert_eq!(chars, vec!['q']);
    assert!(!l.accept_empty);
    assert_eq!(l.prefixes, vec![0]);
    assert_eq!(l.suffixes, vec![0]);
    assert!(l.factors.is_empty());
}

#[test]
fn from_regex_gives_repeated_symbols_distinct_positions() {
    // a a
    let (l, chars) = LocalLanguage::from_regex(Concatenation(t('a'), t('a')));
    assert_eq!(chars, vec!['a', 'a']);
    assert_eq!(sorted(l.prefixes), vec![0]);
    assert_eq!(sorted(l.suffixes), vec![1]);
    assert_eq!(sorted_pairs(l.factors), vec![(0, 1)]);
}

#[test]
fn clone_of_a_local_language_keeps_its_fields() {
    let mut l = LocalLanguage::from_litteral(0);
    l.concatenation(LocalLanguage::from_litteral(1));
    let copy = l.clone();
    assert_eq!(copy.accept_empty, l.accept_empty);
    assert_eq!(copy.prefixes, l.prefixes);
    assert_eq!(copy.suffixes, l.suffixes);
    assert_eq!(copy.factors, l.factors);
}

#[test]
fn concatenation_lists_left_then_bridges_then_right() {
    // (0 1) followed by (2 | 3)
    let mut left = LocalLanguage::from_litteral(0);
    left.concatenation(LocalLanguage::from_litteral(1));
    let mut right = LocalLanguage::from_litteral(2);
    right.either(LocalLanguage::from_litteral(3));
    right.repeat();
    left.concatenation(right);
    assert!(!left.accept_empty);
    assert_eq!(left.prefixes, vec![0]);
    assert_eq!(left.suffixes, vec![1, 2, 3]);
    assert_eq!(
        left.factors,
        vec![(0, 1), (1, 2), (1, 3), (2, 2), (2, 3), (3, 2), (3, 3)]
    );
}

#[test]
fn concatenation_of_literal_and_optional_literal_lists() {
    let mut l = LocalLanguage::from_litteral(0);
    let mut r = LocalLanguage::from_litteral(1);
    r.optional();
    l.concatenation(r);
    assert!(!l.accept_empty);
    assert_eq!(l.prefixes, vec![0]);
    assert_eq!(l.suffixes, vec![0, 1]);
    assert_eq!(l.factors, vec![(0, 1)]);
}

#[test]
fn concatenation_with_empty_keeps_the_lists() {
    let mut x = LocalLanguage::from_litteral(0);
    x.concatenation(LocalLanguage::from_litteral(1));
    x.repeat();
    let before = x.clone();
    x.concatenation(LocalLanguage::empty());
    assert_eq!(x.accept_empty, before.accept_empty);
    assert_eq!(x.prefixes, before.prefixes);
    assert_eq!(x.suffixes, before.suffixes);
    assert_eq!(x.factors, before.factors);

    let mut e = LocalLanguage::empty();
    e.concatenation(before.clone());
    assert_eq!(e.accept_empty, before.accept_empty);
    assert_eq!(e.prefixes, before.prefixes);
    assert_eq!(e.suffixes, before.suffixes);
    assert_eq!(e.factors, before.factors);
}

#[test]
fn either_lists_self_then_other() {
    let mut l = LocalLanguage::from_litteral(0);
    let mut r = LocalLanguage::from_litteral(1);
    r.optional();
    l.either(r);
    assert!(l.accept_empty);
    assert_eq!(l.prefixes, vec![0, 1]);
    assert_eq!(l.suffixes, vec![0, 1]);
    assert!(l.factors.is_empty());
}

#[test]
fn repeat_keeps_prefixes_and_suffixes() {
    let mut l = LocalLanguage::from_litteral(0);
    l.either(LocalLanguage::from_litteral(1));
    l.repeat();
    assert!(l.accept_empty);
    assert_eq!(l.prefixes, vec![0, 1]);
    assert_eq!(l.suffixes, vec![0, 1]);
    assert_eq!(l.factors, vec![(0, 0), (0, 1), (1, 0), (1, 1)]);
}

#[test]
fn repeat_twice_lists_the_loops_twice() {
    let mut l = LocalLanguage::from_litteral(0);
    l.repeat();
    assert_eq!(l.factors, vec![(0, 0)]);
    l.repeat();
    assert!(l.accept_empty);
    assert_eq!(l.prefixes, vec![0]);
    assert_eq!(l.suffixes, vec![0]);
    assert_eq!(l.factors, vec![(0, 0), (0, 0)]);
}

#[test]
fn from_regex_lists_in_order() {
    // (a b)* | a?
    let r = Alternative(
        Box::new(Star(Box::new(Concatenation(t('a'), t('b'))))),
        Box::new(Optional(t('a'))),
    );
    let (l, chars) = LocalLanguage::from_regex(r);
    assert_eq!(chars, vec!['a', 'b', 'a']);
    assert!(l.accept_empty);
    assert_eq!(l.prefixes, vec![0, 2]);
    assert_eq!(l.suffixes, vec![1, 2]);
    assert_eq!(l.factors, vec![(0, 1), (1, 0)]);

    // a a*
    let (l, chars) = LocalLanguage::from_regex(Concatenation(t('a'), Box::new(Star(t('a')))));
    assert_eq!(chars, vec!['a', 'a']);
    assert!(!l.accept_empty);
    assert_eq!(l.prefixes, vec![0]);
    assert_eq!(l.suffixes, vec![0, 1]);
    assert_eq!(l.factors, vec![(0, 1), (1, 1)]);
}
