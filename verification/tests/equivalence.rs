use regex_equivalence::is_equivalent;
use regex_equivalence::Regex;
use regex_equivalence::Regex::{Alternative, Concatenation, Epsilon, Optional, Star, Terminal};

fn t(c: char) -> Box<Regex> {
    Box::new(Terminal(c))
}

#[test]
fn test_equivalent() {
    assert!(is_equivalent(
        &Star(Box::new(Terminal('a'))),
        &Concatenation(
            Box::new(Optional(Box::new(Terminal('a')))),
            Box::new(Star(Box::new(Terminal('a'))))
        )
    ));
    assert!(is_equivalent(
        &Alternative(Box::new(Terminal('a')), Box::new(Terminal('b'))),
        &Alternative(Box::new(Terminal('b')), Box::new(Terminal('a')))
    ));
}

#[test]
fn test_not_equivalent() {
    assert!(!is_equivalent(
        &Star(Box::new(Terminal('a'))),
        &Concatenation(
            Box::new(Terminal('a')),
            Box::new(Star(Box::new(Terminal('a'))))
        )
    ));
    assert!(!is_equivalent(
        &Star(Box::new(Alternative(
            Box::new(Terminal('a')),
            Box::new(Terminal('b'))
        ))),
        &Alternative(
            Box::new(Star(Box::new(Terminal('a')))),
            Box::new(Star(Box::new(Terminal('a'))))
        )
    ));
}

#[test]
fn star_absorbs_optional_prefix() {
    let left = Star(t('a'));
    let right = Concatenation(Box::new(Optional(t('a'))), Box::new(Star(t('a'))));
    assert!(is_equivalent(&left, &right));
}

#[test]
fn alternative_is_commutative() {
    assert!(is_equivalent(&Alternative(t('a'), t('b')), &Alternative(t('b'), t('a'))));
}

#[test]
fn star_differs_from_plus() {
    let left = Star(t('a'));
    let right = Concatenation(t('a'), Box::new(Star(t('a'))));
    assert!(!is_equivalent(&left, &right));
}

#[test]
fn star_of_alternative_differs_from_alternative_of_stars() {
    let left = Star(Box::new(Alternative(t('a'), t('b'))));
    let right = Alternative(Box::new(Star(t('a'))), Box::new(Star(t('a'))));
    assert!(!is_equivalent(&left, &right));
}

#[test]
fn epsilon_differs_from_optional() {
    assert!(!is_equivalent(&Epsilon, &Optional(t('a'))));
}

#[test]
fn equivalence_is_semantic() {
    let first = Concatenation(t('a'), t('b'));
    let second = Concatenation(Box::new(Terminal('a')), Box::new(Terminal('b')));
    assert!(is_equivalent(&first, &second));
}

fn samples() -> Vec<Regex> {
    vec![
        Epsilon,
        Terminal('a'),
        Terminal('z'),
        Optional(t('a')),
        Star(t('a')),
        Concatenation(t('a'), t('b')),
        Alternative(t('a'), t('b')),
        Alternative(t('b'), t('a')),
        Concatenation(Box::new(Optional(t('a'))), Box::new(Star(t('a')))),
        Star(Box::new(Alternative(t('a'), t('b')))),
        Star(Box::new(Concatenation(Box::new(Star(t('a'))), Box::new(Star(t('b')))))),
        Optional(Box::new(Epsilon)),
        Star(Box::new(Star(t('a')))),
        Concatenation(Box::new(Epsilon), t('a')),
    ]
}

#[test]
fn equivalence_is_reflexive_on_samples() {
    for r in samples() {
        assert!(is_equivalent(&r, &r), "{}", r.to_string());
    }
}

#[test]
fn equivalence_is_symmetric_on_samples() {
    let all = samples();
    for a in &all {
        for b in &all {
            assert_eq!(is_equivalent(a, b), is_equivalent(b, a));
        }
    }
}

#[test]
fn equivalence_is_transitive_on_samples() {
    let all = samples();
    for a in &all {
        for b in &all {
            if !is_equivalent(a, b) {
                continue;
            }
            for c in &all {
                if is_equivalent(b, c) {
                    assert!(is_equivalent(a, c));
                }
            }
        }
    }
}

#[test]
fn known_equivalences_among_samples() {
    // (a*b*)* and (a|b)* denote the same language.
    let left = Star(Box::new(Concatenation(Box::new(Star(t('a'))), Box::new(Star(t('b'))))));
    let right = Star(Box::new(Alternative(t('a'), t('b'))));
    assert!(is_equivalent(&left, &right));
    // a** and a*.
    assert!(is_equivalent(&Star(Box::new(Star(t('a')))), &Star(t('a'))));
    // epsilon? and epsilon.
    assert!(is_equivalent(&Optional(Box::new(Epsilon)), &Epsilon));
    // epsilon a and a.
    assert!(is_equivalent(&Concatenation(Box::new(Epsilon), t('a')), &Terminal('a')));
    // a and z differ.
    assert!(!is_equivalent(&Terminal('a'), &Terminal('z')));
    // ab and ba differ.
    assert!(!is_equivalent(&Concatenation(t('a'), t('b')), &Concatenation(t('b'), t('a'))));
}

#[test]
fn symbols_outside_the_alphabet_match_no_word() {
    // No word over the lowercase letters holds 'A' or '1'.
    assert!(is_equivalent(&Terminal('A'), &Terminal('1')));
    assert!(!is_equivalent(&Terminal('A'), &Epsilon));
    assert!(is_equivalent(&Optional(t('A')), &Epsilon));
    assert!(is_equivalent(&Alternative(t('A'), t('a')), &Terminal('a')));
}

#[test]
fn to_string_of_each_variant() {
    assert_eq!(Terminal('a').to_string(), "a");
    assert_eq!(Epsilon.to_string(), "\u{3b5}");
    assert_eq!(Concatenation(t('a'), t('b')).to_string(), "(ab)");
    assert_eq!(Alternative(t('a'), t('b')).to_string(), "a|b");
    assert_eq!(Optional(t('a')).to_string(), "a?");
    assert_eq!(Star(t('a')).to_string(), "a*");
}

#[test]
fn to_string_of_nested_expressions() {
    let r = Star(Box::new(Concatenation(
        Box::new(Alternative(t('a'), Box::new(Epsilon))),
        Box::new(Optional(t('c'))),
    )));
    assert_eq!(r.to_string(), "(a|\u{3b5}c?)*");
    let s = Concatenation(Box::new(Concatenation(t('x'), t('y'))), t('z'));
    assert_eq!(s.to_string(), "((xy)z)");
}

#[test]
fn clone_of_an_expression_is_equal() {
    for r in samples() {
        let copy = r.clone();
        assert_eq!(copy, r);
        assert_eq!(copy.to_string(), r.to_string());
    }
}
