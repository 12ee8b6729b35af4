//! Regular expressions as trees, and the languages they denote.
use vstd::prelude::*;
use vstd::string::StringExecFns;

verus! {

/// `String::push` appends the given character to the end of the string.
pub assume_specification[ String::push ](s: &mut String, ch: char)
    ensures
        final(s)@ == old(s)@.push(ch),
;

/// A regular expression.
#[derive(Debug, PartialEq, Eq)]
pub enum Regex {
    /// The language of the single one-symbol word `c`.
    Terminal(char),
    /// The language containing only the empty word.
    Epsilon,
    /// Every word of the first language followed by every word of the second.
    Concatenation(Box<Regex>, Box<Regex>),
    /// The union of two languages.
    Alternative(Box<Regex>, Box<Regex>),
    /// The language together with the empty word.
    Optional(Box<Regex>),
    /// Every finite concatenation of words of the language (Kleene star).
    Star(Box<Regex>),
}

impl Regex {
    /// Whether the word `w` belongs to the language denoted by the expression.
    pub open spec fn matches(self, w: Seq<char>) -> bool
        decreases self, w.len(),
    {
        match self {
            Regex::Terminal(c) => w == seq![c],
            Regex::Epsilon => w.len() == 0,
            Regex::Concatenation(a, b) => exists|k: int|
                0 <= k <= w.len() && a.matches(#[trigger] w.subrange(0, k)) && b.matches(
                    w.subrange(k, w.len() as int),
                ),
            Regex::Alternative(a, b) => a.matches(w) || b.matches(w),
            Regex::Optional(a) => w.len() == 0 || a.matches(w),
            Regex::Star(a) => w.len() == 0 || exists|k: int|
                0 < k <= w.len() && a.matches(#[trigger] w.subrange(0, k)) && self.matches(
                    w.subrange(k, w.len() as int),
                ),
        }
    }

    /// The symbols of the terminals of the expression, from left to right.
    pub open spec fn symbols(self) -> Seq<char>
        decreases self,
    {
        match self {
            Regex::Terminal(c) => seq![c],
            Regex::Epsilon => Seq::empty(),
            Regex::Concatenation(a, b) => a.symbols() + b.symbols(),
            Regex::Alternative(a, b) => a.symbols() + b.symbols(),
            Regex::Optional(a) => a.symbols(),
            Regex::Star(a) => a.symbols(),
        }
    }

    /// The rendering of the expression: concatenations are parenthesised,
    /// alternatives are separated by `|`, `?` and `*` are postfix, and the
    /// empty word is written `ε`.
    pub open spec fn display(self) -> Seq<char>
        decreases self,
    {
        match self {
            Regex::Terminal(c) => seq![c],
            Regex::Epsilon => seq!['\u{3b5}'],
            Regex::Concatenation(a, b) => seq!['('] + a.display() + b.display() + seq![')'],
            Regex::Alternative(a, b) => a.display() + seq!['|'] + b.display(),
            Regex::Optional(a) => a.display() + seq!['?'],
            Regex::Star(a) => a.display() + seq!['*'],
        }
    }

    /// Renders the expression as text.
    pub fn to_string(&self) -> (res: String)
        ensures
            res@ == self.display(),
        decreases *self,
    {
        let mut res = String::new();
        match self {
            Regex::Terminal(c) => {
                res.push(*c);
            },
            Regex::Epsilon => {
                res.push('\u{3b5}');
            },
            Regex::Concatenation(a, b) => {
                res.push('(');
                res.append(a.to_string().as_str());
                res.append(b.to_string().as_str());
                res.push(')');
            },
            Regex::Alternative(a, b) => {
                res.append(a.to_string().as_str());
                res.push('|');
                res.append(b.to_string().as_str());
            },
            Regex::Optional(a) => {
                res.append(a.to_string().as_str());
                res.push('?');
            },
            Regex::Star(a) => {
                res.append(a.to_string().as_str());
                res.push('*');
            },
        }
        assert(res@ =~= self.display());
        res
    }
}

impl Clone for Regex {
    fn clone(&self) -> (res: Self)
        ensures
            res == *self,
        decreases *self,
    {
        match self {
            Regex::Terminal(c) => Regex::Terminal(*c),
            Regex::Epsilon => Regex::Epsilon,
            Regex::Concatenation(a, b) => Regex::Concatenation(
                Box::new((**a).clone()),
                Box::new((**b).clone()),
            ),
            Regex::Alternative(a, b) => Regex::Alternative(
                Box::new((**a).clone()),
                Box::new((**b).clone()),
            ),
            Regex::Optional(a) => Regex::Optional(Box::new((**a).clone())),
            Regex::Star(a) => Regex::Star(Box::new((**a).clone())),
        }
    }
}

} // verus!
