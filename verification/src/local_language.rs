//! Local languages: the summary of a linearised expression by the positions
//! that may start a word, those that may end one, and the pairs of positions
//! that may follow each other.
use vstd::prelude::*;
use crate::regex::Regex;
use crate::glushkov::{theorem_linearize_recognizes, lemma_linearize_within};
use vstd::arithmetic::div_mod::{
    lemma_fundamental_div_mod, lemma_fundamental_div_mod_converse, lemma_mod_pos_bound,
    lemma_div_pos_is_pos,
};

verus! {

/// A local language over positions, as kept at run time.
///
/// `prefixes` and `suffixes` list the positions that may start and end a
/// word; `factors` lists the pairs `(a, b)` such that `b` may directly follow
/// `a`. The language depends on the lists as sets only: the order of their
/// entries and their repetitions do not change it.
#[derive(Debug)]
pub struct LocalLanguage {
    pub accept_empty: bool,
    pub prefixes: Vec<usize>,
    pub suffixes: Vec<usize>,
    pub factors: Vec<(usize, usize)>,
}

/// The mathematical content of a [`LocalLanguage`].
pub struct LocalSpec {
    pub accept_empty: bool,
    pub prefixes: Set<int>,
    pub suffixes: Set<int>,
    pub factors: Set<(int, int)>,
}

/// The set of positions listed in `v`.
pub open spec fn position_set(v: Seq<usize>) -> Set<int> {
    Set::new(|p: int| exists|i: int| 0 <= i < v.len() && #[trigger] v[i] == p)
}

/// The set of pairs of positions listed in `v`.
pub open spec fn factor_set(v: Seq<(usize, usize)>) -> Set<(int, int)> {
    Set::new(
        |f: (int, int)|
            exists|i: int| 0 <= i < v.len() && (#[trigger] v[i]).0 == f.0 && v[i].1 == f.1,
    )
}

/// All the pairs whose first component is in `left` and whose second is in `right`.
pub open spec fn pair_set(left: Set<int>, right: Set<int>) -> Set<(int, int)> {
    Set::new(|f: (int, int)| left.contains(f.0) && right.contains(f.1))
}

/// An empty list stands for the empty set.
pub proof fn lemma_position_set_empty()
    ensures
        position_set(Seq::<usize>::empty()) == Set::<int>::empty(),
        factor_set(Seq::<(usize, usize)>::empty()) == Set::<(int, int)>::empty(),
{
    assert(position_set(Seq::<usize>::empty()) =~= Set::<int>::empty());
    assert(factor_set(Seq::<(usize, usize)>::empty()) =~= Set::<(int, int)>::empty());
}

/// Adding a position at the end of a list adds it to the set.
pub proof fn lemma_position_set_push(v: Seq<usize>, x: usize)
    ensures
        position_set(v.push(x)) == position_set(v).insert(x as int),
{
    let w = v.push(x);
    assert forall|p: int| position_set(w).contains(p) implies position_set(v).insert(
        x as int,
    ).contains(p) by {
        let i = choose|i: int| 0 <= i < w.len() && #[trigger] w[i] == p;
        if i < v.len() {
            assert(v[i] == p);
        }
    }
    assert forall|p: int| position_set(v).insert(x as int).contains(p) implies position_set(
        w,
    ).contains(p) by {
        if p == x {
            assert(w[v.len() as int] == p);
        } else {
            let i = choose|i: int| 0 <= i < v.len() && #[trigger] v[i] == p;
            assert(w[i] == p);
        }
    }
    assert(position_set(w) =~= position_set(v).insert(x as int));
}

/// Two lists put end to end stand for the union of their sets.
pub proof fn lemma_position_set_concat(a: Seq<usize>, b: Seq<usize>)
    ensures
        position_set(a + b) == position_set(a) + position_set(b),
{
    let w = a + b;
    assert forall|p: int| position_set(w).contains(p) implies (position_set(a) + position_set(
        b,
    )).contains(p) by {
        let i = choose|i: int| 0 <= i < w.len() && #[trigger] w[i] == p;
        if i < a.len() {
            assert(a[i] == p);
        } else {
            assert(b[i - a.len()] == p);
        }
    }
    assert forall|p: int| (position_set(a) + position_set(b)).contains(p) implies position_set(
        w,
    ).contains(p) by {
        if position_set(a).contains(p) {
            let i = choose|i: int| 0 <= i < a.len() && #[trigger] a[i] == p;
            assert(w[i] == p);
        } else {
            let i = choose|i: int| 0 <= i < b.len() && #[trigger] b[i] == p;
            assert(w[a.len() + i] == p);
        }
    }
    assert(position_set(w) =~= position_set(a) + position_set(b));
}

/// Adding a pair at the end of a list adds it to the set.
pub proof fn lemma_factor_set_push(v: Seq<(usize, usize)>, x: (usize, usize))
    ensures
        factor_set(v.push(x)) == factor_set(v).insert((x.0 as int, x.1 as int)),
{
    let w = v.push(x);
    let y = (x.0 as int, x.1 as int);
    assert forall|f: (int, int)| factor_set(w).contains(f) implies factor_set(v).insert(
        y,
    ).contains(f) by {
        let i = choose|i: int| 0 <= i < w.len() && (#[trigger] w[i]).0 == f.0 && w[i].1 == f.1;
        if i < v.len() {
            assert(v[i].0 == f.0 && v[i].1 == f.1);
        }
    }
    assert forall|f: (int, int)| factor_set(v).insert(y).contains(f) implies factor_set(
        w,
    ).contains(f) by {
        if f == y {
            assert(w[v.len() as int].0 == f.0 && w[v.len() as int].1 == f.1);
        } else {
            let i = choose|i: int| 0 <= i < v.len() && (#[trigger] v[i]).0 == f.0 && v[i].1 == f.1;
            assert(w[i].0 == f.0 && w[i].1 == f.1);
        }
    }
    assert(factor_set(w) =~= factor_set(v).insert(y));
}

/// Two lists of pairs put end to end stand for the union of their sets.
pub proof fn lemma_factor_set_concat(a: Seq<(usize, usize)>, b: Seq<(usize, usize)>)
    ensures
        factor_set(a + b) == factor_set(a) + factor_set(b),
{
    let w = a + b;
    assert forall|f: (int, int)| factor_set(w).contains(f) implies (factor_set(a) + factor_set(
        b,
    )).contains(f) by {
        let i = choose|i: int| 0 <= i < w.len() && (#[trigger] w[i]).0 == f.0 && w[i].1 == f.1;
        if i < a.len() {
            assert(a[i].0 == f.0 && a[i].1 == f.1);
        } else {
            assert(b[i - a.len()].0 == f.0 && b[i - a.len()].1 == f.1);
        }
    }
    assert forall|f: (int, int)| (factor_set(a) + factor_set(b)).contains(f) implies factor_set(
        w,
    ).contains(f) by {
        if factor_set(a).contains(f) {
            let i = choose|i: int| 0 <= i < a.len() && (#[trigger] a[i]).0 == f.0 && a[i].1 == f.1;
            assert(w[i].0 == f.0 && w[i].1 == f.1);
        } else {
            let i = choose|i: int| 0 <= i < b.len() && (#[trigger] b[i]).0 == f.0 && b[i].1 == f.1;
            assert(w[a.len() + i].0 == f.0 && w[a.len() + i].1 == f.1);
        }
    }
    assert(factor_set(w) =~= factor_set(a) + factor_set(b));
}

impl LocalSpec {
    /// The language of the single one-position word `p`.
    pub open spec fn literal(p: int) -> LocalSpec {
        LocalSpec {
            accept_empty: false,
            prefixes: set![p],
            suffixes: set![p],
            factors: Set::empty(),
        }
    }

    /// The language containing only the empty word.
    pub open spec fn empty() -> LocalSpec {
        LocalSpec {
            accept_empty: true,
            prefixes: Set::empty(),
            suffixes: Set::empty(),
            factors: Set::empty(),
        }
    }

    /// Words of `self` followed by words of `other`.
    pub open spec fn concatenation(self, other: LocalSpec) -> LocalSpec {
        LocalSpec {
            accept_empty: self.accept_empty && other.accept_empty,
            prefixes: if self.accept_empty {
                self.prefixes + other.prefixes
            } else {
                self.prefixes
            },
            suffixes: if other.accept_empty {
                self.suffixes + other.suffixes
            } else {
                other.suffixes
            },
            factors: self.factors + other.factors + pair_set(self.suffixes, other.prefixes),
        }
    }

    /// Words of `self` together with words of `other`.
    pub open spec fn either(self, other: LocalSpec) -> LocalSpec {
        LocalSpec {
            accept_empty: self.accept_empty || other.accept_empty,
            prefixes: self.prefixes + other.prefixes,
            suffixes: self.suffixes + other.suffixes,
            factors: self.factors + other.factors,
        }
    }

    /// Words of `self` together with the empty word.
    pub open spec fn optional(self) -> LocalSpec {
        LocalSpec { accept_empty: true, ..self }
    }

    /// Finite concatenations of words of `self`.
    pub open spec fn repeat(self) -> LocalSpec {
        LocalSpec {
            accept_empty: true,
            prefixes: self.prefixes,
            suffixes: self.suffixes,
            factors: self.factors + pair_set(self.suffixes, self.prefixes),
        }
    }

    /// Every position mentioned lies in `lo..hi`.
    pub open spec fn within(self, lo: int, hi: int) -> bool {
        &&& forall|p: int| #[trigger] self.prefixes.contains(p) ==> lo <= p < hi
        &&& forall|p: int| #[trigger] self.suffixes.contains(p) ==> lo <= p < hi
        &&& forall|f: (int, int)| #[trigger]
            self.factors.contains(f) ==> lo <= f.0 < hi && lo <= f.1 < hi
    }

    /// Whether position `p[i + 1]` may follow position `p[i]`.
    pub open spec fn linked(self, p: Seq<int>, i: int) -> bool {
        self.factors.contains((p[i], p[i + 1]))
    }

    /// Whether the word of positions `p` belongs to the language: it is empty
    /// and the empty word is accepted, or it starts with a prefix, ends with a
    /// suffix, and each two consecutive positions form a factor.
    pub open spec fn accepts(self, p: Seq<int>) -> bool {
        if p.len() == 0 {
            self.accept_empty
        } else {
            &&& self.prefixes.contains(p[0])
            &&& self.suffixes.contains(p.last())
            &&& forall|i: int| 0 <= i < p.len() - 1 ==> #[trigger] self.linked(p, i)
        }
    }

    /// Whether the word of positions `p` spells the word `w` when each
    /// position is replaced by its symbol.
    pub open spec fn spells(symbols: Seq<char>, p: Seq<int>, w: Seq<char>) -> bool {
        &&& p.len() == w.len()
        &&& forall|i: int|
            0 <= i < p.len() ==> 0 <= #[trigger] p[i] < symbols.len() && symbols[p[i]] == w[i]
    }

    /// Whether `w` is spelled by some word of positions of the language.
    pub open spec fn recognizes(self, symbols: Seq<char>, w: Seq<char>) -> bool {
        exists|p: Seq<int>| #[trigger] self.accepts(p) && Self::spells(symbols, p, w)
    }
}

impl View for LocalLanguage {
    type V = LocalSpec;

    open spec fn view(&self) -> LocalSpec {
        LocalSpec {
            accept_empty: self.accept_empty,
            prefixes: position_set(self.prefixes@),
            suffixes: position_set(self.suffixes@),
            factors: factor_set(self.factors@),
        }
    }
}

/// The local language of the expression `r` once linearised, its terminals
/// being given the positions `start`, `start + 1`, ... from left to right.
pub open spec fn linearize(r: Regex, start: int) -> LocalSpec
    decreases r,
{
    match r {
        Regex::Terminal(_) => LocalSpec::literal(start),
        Regex::Epsilon => LocalSpec::empty(),
        Regex::Concatenation(a, b) => linearize(*a, start).concatenation(
            linearize(*b, start + a.symbols().len()),
        ),
        Regex::Alternative(a, b) => linearize(*a, start).either(
            linearize(*b, start + a.symbols().len()),
        ),
        Regex::Optional(a) => linearize(*a, start).optional(),
        Regex::Star(a) => linearize(*a, start).repeat(),
    }
}

/// The pairs made of `x` and each entry of `b`, in the order of `b`.
pub open spec fn pairs_with(x: usize, b: Seq<usize>) -> Seq<(usize, usize)> {
    Seq::new(b.len(), |j: int| (x, b[j]))
}

/// All the pairs made of an entry of `a` and an entry of `b`: the pairs with
/// the first entry of `a` come first, in the order of `b`, then those with
/// its second entry, and so on.
pub open spec fn product_seq(a: Seq<usize>, b: Seq<usize>) -> Seq<(usize, usize)>
    decreases a.len(),
{
    if a.len() == 0 || b.len() == 0 {
        Seq::empty()
    } else if a.len() == 1 {
        pairs_with(a[0], b)
    } else {
        pairs_with(a[0], b) + product_seq(a.drop_first(), b)
    }
}

/// The same pairs, each given by its place: the pair of the entries at `i`
/// and `j` stands at place `i * b.len() + j`.
pub open spec fn product_table(a: Seq<usize>, b: Seq<usize>) -> Seq<(usize, usize)> {
    Seq::new(a.len() * b.len(), |k: int| (a[k / (b.len() as int)], b[k % (b.len() as int)]))
}

/// A place below `m * n` is made of a quotient below `m` and a remainder
/// below `n`.
proof fn lemma_product_index(k: int, m: int, n: int)
    requires
        0 <= k < m * n,
        0 < n,
    ensures
        0 <= k / n < m,
        0 <= k % n < n,
        k == (k / n) * n + k % n,
{
    lemma_fundamental_div_mod(k, n);
    lemma_mod_pos_bound(k, n);
    lemma_div_pos_is_pos(k, n);
    let q = k / n;
    assert(n * q == q * n) by (nonlinear_arith);
    if q >= m {
        assert(q * n >= m * n) by (nonlinear_arith)
            requires
                q >= m,
                0 < n,
        ;
    }
}

/// The pair of the entries at `i` and `j` stands at place `i * n + j`.
proof fn lemma_product_place(i: int, j: int, m: int, n: int)
    requires
        0 <= i < m,
        0 <= j < n,
    ensures
        0 <= i * n + j < m * n,
        (i * n + j) / n == i,
        (i * n + j) % n == j,
{
    lemma_fundamental_div_mod_converse(i * n + j, n, i, j);
    assert(i * n + n <= m * n) by (nonlinear_arith)
        requires
            i < m,
            0 < n,
    ;
    assert(0 <= i * n) by (nonlinear_arith)
        requires
            0 <= i,
            0 < n,
    ;
}

/// In a product, the pair of the entries at `i` and `j` stands at place
/// `i * b.len() + j`.
pub proof fn lemma_product_seq_table(a: Seq<usize>, b: Seq<usize>)
    ensures
        product_seq(a, b) == product_table(a, b),
    decreases a.len(),
{
    let m = a.len() as int;
    let n = b.len() as int;
    let p = product_seq(a, b);
    let t = product_table(a, b);
    if m == 0 || n == 0 {
        assert(m * n == 0) by (nonlinear_arith)
            requires
                m == 0 || n == 0,
        ;
        assert(p =~= t);
    } else {
        assert(m * n == n + (m - 1) * n) by (nonlinear_arith);
        assert(0 <= (m - 1) * n) by (nonlinear_arith)
            requires
                1 <= m,
                0 < n,
        ;
        let rest = a.drop_first();
        if m > 1 {
            lemma_product_seq_table(rest, b);
        }
        assert(p.len() == t.len());
        assert forall|k: int| 0 <= k < t.len() implies p[k] == t[k] by {
            lemma_product_index(k, m, n);
            if k < n {
                lemma_fundamental_div_mod_converse(k, n, 0, k);
                assert(p[k] == pairs_with(a[0], b)[k]);
            } else {
                let h = k - n;
                lemma_product_index(h, m - 1, n);
                let q = h / n;
                let r = h % n;
                assert((q + 1) * n == q * n + n) by (nonlinear_arith);
                lemma_fundamental_div_mod_converse(k, n, q + 1, r);
                assert(p[k] == product_seq(rest, b)[h]);
                assert(product_seq(rest, b)[h] == product_table(rest, b)[h]);
                assert(rest[q] == a[q + 1]);
            }
        }
        assert(p =~= t);
    }
}

/// The pairs listed in a product are the pairs of a position listed in the
/// first list and a position listed in the second.
pub proof fn lemma_product_seq_set(a: Seq<usize>, b: Seq<usize>)
    ensures
        factor_set(product_seq(a, b)) == pair_set(position_set(a), position_set(b)),
{
    lemma_product_seq_table(a, b);
    let p = product_table(a, b);
    let m = a.len() as int;
    let n = b.len() as int;
    let goal = pair_set(position_set(a), position_set(b));
    assert forall|f: (int, int)| factor_set(p).contains(f) implies goal.contains(f) by {
        let k = choose|k: int| 0 <= k < p.len() && (#[trigger] p[k]).0 == f.0 && p[k].1 == f.1;
        if n == 0 {
            assert(m * n == 0) by (nonlinear_arith)
                requires
                    n == 0,
            ;
        }
        lemma_product_index(k, m, n);
        assert(a[k / n] == f.0);
        assert(b[k % n] == f.1);
    }
    assert forall|f: (int, int)| goal.contains(f) implies factor_set(p).contains(f) by {
        let i = choose|i: int| 0 <= i < a.len() && #[trigger] a[i] == f.0;
        let j = choose|j: int| 0 <= j < b.len() && #[trigger] b[j] == f.1;
        lemma_product_place(i, j, m, n);
        let k = i * n + j;
        assert(p[k].0 == f.0 && p[k].1 == f.1);
    }
    assert(factor_set(p) =~= goal);
}

/// All the pairs made of an element of `l1` and an element of `l2`, those
/// with the first element of `l1` first, in the order of `l2`.
fn cartesian_product(l1: &Vec<usize>, l2: &Vec<usize>) -> (res: Vec<(usize, usize)>)
    ensures
        res@ == product_seq(l1@, l2@),
        res@.len() == l1@.len() * l2@.len(),
        forall|i: int, j: int|
            #![trigger l1@[i], l2@[j]]
            0 <= i < l1@.len() && 0 <= j < l2@.len() ==> res@[i * l2@.len() + j] == (
                l1@[i],
                l2@[j],
            ),
        factor_set(res@) == pair_set(position_set(l1@), position_set(l2@)),
{
    let mut res: Vec<(usize, usize)> = Vec::new();
    let mut i: usize = 0;
    let ghost all = product_table(l1@, l2@);
    let ghost m = l1@.len() as int;
    let ghost n = l2@.len() as int;
    proof {
        assert(0 * n == 0) by (nonlinear_arith);
        assert(res@ =~= all.take(0));
    }
    while i < l1.len()
        invariant
            i <= m,
            m == l1@.len(),
            n == l2@.len(),
            all == product_table(l1@, l2@),
            i * n <= m * n,
            res@ == all.take(i * n),
        decreases m - i,
    {
        let a = l1[i];
        let mut j: usize = 0;
        while j < l2.len()
            invariant
                i < m,
                j <= n,
                m == l1@.len(),
                n == l2@.len(),
                a == l1@[i as int],
                all == product_table(l1@, l2@),
                i * n + j <= m * n,
                res@ == all.take(i * n + j),
            decreases n - j,
        {
            let b = l2[j];
            proof {
                lemma_product_place(i as int, j as int, m, n);
                assert(all[i * n + j] == (a, b));
                assert(all.take(i * n + j).push((a, b)) =~= all.take(i * n + j + 1));
            }
            res.push((a, b));
            j += 1;
        }
        proof {
            assert(i * n + n == (i + 1) * n) by (nonlinear_arith);
        }
        i += 1;
    }
    proof {
        assert(all.take(m * n) =~= all);
        lemma_product_seq_table(l1@, l2@);
        lemma_product_seq_set(l1@, l2@);
        assert forall|i: int, j: int|
            #![trigger l1@[i], l2@[j]]
            0 <= i < l1@.len() && 0 <= j < l2@.len() implies res@[i * l2@.len() + j] == (
            l1@[i],
            l2@[j],
        ) by {
            lemma_product_place(i, j, m, n);
        }
    }
    res
}

/// The lists that a [`LocalLanguage`] holds, as sequences.
pub struct LocalLists {
    pub accept_empty: bool,
    pub prefixes: Seq<usize>,
    pub suffixes: Seq<usize>,
    pub factors: Seq<(usize, usize)>,
}

impl LocalLists {
    /// The lists of the language of the single one-position word `p`.
    pub open spec fn literal(p: usize) -> LocalLists {
        LocalLists {
            accept_empty: false,
            prefixes: seq![p],
            suffixes: seq![p],
            factors: Seq::empty(),
        }
    }

    /// The lists of the language containing only the empty word.
    pub open spec fn empty() -> LocalLists {
        LocalLists {
            accept_empty: true,
            prefixes: Seq::empty(),
            suffixes: Seq::empty(),
            factors: Seq::empty(),
        }
    }

    /// The lists of the concatenation: the prefixes of `other` follow those of
    /// `self` when `self` accepts the empty word; the suffixes are those of
    /// `other`, after those of `self` when `other` accepts the empty word;
    /// the factors are those of `self`, then the pairs of a suffix of `self`
    /// and a prefix of `other`, then those of `other`.
    pub open spec fn concatenation(self, other: LocalLists) -> LocalLists {
        LocalLists {
            accept_empty: self.accept_empty && other.accept_empty,
            prefixes: if self.accept_empty {
                self.prefixes + other.prefixes
            } else {
                self.prefixes
            },
            suffixes: if other.accept_empty {
                self.suffixes + other.suffixes
            } else {
                other.suffixes
            },
            factors: self.factors + product_seq(self.suffixes, other.prefixes) + other.factors,
        }
    }

    /// The lists of the union: each list of `self` followed by that of `other`.
    pub open spec fn either(self, other: LocalLists) -> LocalLists {
        LocalLists {
            accept_empty: self.accept_empty || other.accept_empty,
            prefixes: self.prefixes + other.prefixes,
            suffixes: self.suffixes + other.suffixes,
            factors: self.factors + other.factors,
        }
    }

    /// The same lists, with the empty word accepted.
    pub open spec fn optional(self) -> LocalLists {
        LocalLists { accept_empty: true, ..self }
    }

    /// The lists of the star: the empty word is accepted, and the pairs of a
    /// suffix and a prefix follow the factors.
    pub open spec fn repeat(self) -> LocalLists {
        LocalLists {
            accept_empty: true,
            prefixes: self.prefixes,
            suffixes: self.suffixes,
            factors: self.factors + product_seq(self.suffixes, self.prefixes),
        }
    }
}

/// The lists built for the expression `r` when its terminals are given the
/// positions `start`, `start + 1`, ... from left to right.
pub open spec fn linearize_lists(r: Regex, start: usize) -> LocalLists
    decreases r,
{
    match r {
        Regex::Terminal(_) => LocalLists::literal(start),
        Regex::Epsilon => LocalLists::empty(),
        Regex::Concatenation(a, b) => linearize_lists(*a, start).concatenation(
            linearize_lists(*b, (start + a.symbols().len()) as usize),
        ),
        Regex::Alternative(a, b) => linearize_lists(*a, start).either(
            linearize_lists(*b, (start + a.symbols().len()) as usize),
        ),
        Regex::Optional(a) => linearize_lists(*a, start).optional(),
        Regex::Star(a) => linearize_lists(*a, start).repeat(),
    }
}

impl LocalLanguage {
    /// The lists held, as sequences.
    pub open spec fn lists(&self) -> LocalLists {
        LocalLists {
            accept_empty: self.accept_empty,
            prefixes: self.prefixes@,
            suffixes: self.suffixes@,
            factors: self.factors@,
        }
    }

    /// The local language of the one-position word `l`.
    pub fn from_litteral(l: usize) -> (res: LocalLanguage)
        ensures
            !res.accept_empty,
            res.prefixes@ == seq![l],
            res.suffixes@ == seq![l],
            res.factors@ == Seq::<(usize, usize)>::empty(),
            res@ == LocalSpec::literal(l as int),
    {
        let mut prefixes: Vec<usize> = Vec::new();
        prefixes.push(l);
        let mut suffixes: Vec<usize> = Vec::new();
        suffixes.push(l);
        let res = LocalLanguage { accept_empty: false, prefixes, suffixes, factors: Vec::new() };
        proof {
            assert(res.prefixes@ =~= seq![l]);
            assert(res.suffixes@ =~= seq![l]);
            lemma_position_set_empty();
            lemma_position_set_push(Seq::empty(), l);
            assert(res@.prefixes =~= set![l as int]);
            assert(res@.suffixes =~= set![l as int]);
        }
        res
    }

    /// The local language containing only the empty word.
    pub fn empty() -> (res: LocalLanguage)
        ensures
            res.accept_empty,
            res.prefixes@ == Seq::<usize>::empty(),
            res.suffixes@ == Seq::<usize>::empty(),
            res.factors@ == Seq::<(usize, usize)>::empty(),
            res@ == LocalSpec::empty(),
    {
        proof {
            lemma_position_set_empty();
        }
        LocalLanguage {
            accept_empty: true,
            prefixes: Vec::new(),
            suffixes: Vec::new(),
            factors: Vec::new(),
        }
    }

    /// Turns `self` into the concatenation of `self` and `other`.
    ///
    /// The result is the local language of the concatenation when no position
    /// occurs in both operands.
    pub fn concatenation(&mut self, other: LocalLanguage)
        ensures
            final(self).accept_empty == (old(self).accept_empty && other.accept_empty),
            final(self).prefixes@ == if old(self).accept_empty {
                old(self).prefixes@ + other.prefixes@
            } else {
                old(self).prefixes@
            },
            final(self).suffixes@ == if other.accept_empty {
                old(self).suffixes@ + other.suffixes@
            } else {
                other.suffixes@
            },
            final(self).factors@ == old(self).factors@ + product_seq(
                old(self).suffixes@,
                other.prefixes@,
            ) + other.factors@,
            final(self)@ == old(self)@.concatenation(other@),
    {
        let ghost goal = self@.concatenation(other@);
        let mut other = other;
        let mut bridges = cartesian_product(&self.suffixes, &other.prefixes);
        proof {
            lemma_factor_set_concat(self.factors@, bridges@);
            lemma_factor_set_concat(self.factors@ + bridges@, other.factors@);
            lemma_position_set_concat(self.suffixes@, other.suffixes@);
            lemma_position_set_concat(self.prefixes@, other.prefixes@);
        }
        self.factors.append(&mut bridges);
        self.factors.append(&mut other.factors);
        if other.accept_empty {
            self.suffixes.append(&mut other.suffixes);
        } else {
            self.suffixes = other.suffixes;
        }
        if self.accept_empty {
            self.prefixes.append(&mut other.prefixes);
        }
        self.accept_empty = self.accept_empty && other.accept_empty;
        proof {
            assert(self@.factors =~= goal.factors);
            assert(self@.prefixes =~= goal.prefixes);
            assert(self@.suffixes =~= goal.suffixes);
        }
    }

    /// Turns `self` into the union of `self` and `other`.
    ///
    /// The result is the local language of the union when no position occurs
    /// in both operands.
    pub fn either(&mut self, other: LocalLanguage)
        ensures
            final(self).accept_empty == (old(self).accept_empty || other.accept_empty),
            final(self).prefixes@ == old(self).prefixes@ + other.prefixes@,
            final(self).suffixes@ == old(self).suffixes@ + other.suffixes@,
            final(self).factors@ == old(self).factors@ + other.factors@,
            final(self)@ == old(self)@.either(other@),
    {
        let mut other = other;
        proof {
            lemma_factor_set_concat(self.factors@, other.factors@);
            lemma_position_set_concat(self.suffixes@, other.suffixes@);
            lemma_position_set_concat(self.prefixes@, other.prefixes@);
        }
        self.accept_empty = self.accept_empty || other.accept_empty;
        self.prefixes.append(&mut other.prefixes);
        self.suffixes.append(&mut other.suffixes);
        self.factors.append(&mut other.factors);
    }

    /// Adds the empty word to the language.
    pub fn optional(&mut self)
        ensures
            final(self).accept_empty,
            final(self).prefixes@ == old(self).prefixes@,
            final(self).suffixes@ == old(self).suffixes@,
            final(self).factors@ == old(self).factors@,
            final(self)@ == old(self)@.optional(),
    {
        self.accept_empty = true;
    }

    /// Turns `self` into its Kleene star.
    pub fn repeat(&mut self)
        ensures
            final(self).accept_empty,
            final(self).prefixes@ == old(self).prefixes@,
            final(self).suffixes@ == old(self).suffixes@,
            final(self).factors@ == old(self).factors@ + product_seq(
                old(self).suffixes@,
                old(self).prefixes@,
            ),
            final(self)@ == old(self)@.repeat(),
    {
        self.accept_empty = true;
        let mut loops = cartesian_product(&self.suffixes, &self.prefixes);
        proof {
            lemma_factor_set_concat(self.factors@, loops@);
        }
        self.factors.append(&mut loops);
    }

    /// Linearises `r`, giving its terminals the positions that follow those
    /// already recorded in `chars`, and records their symbols there.
    fn from_regex_rec(r: Regex, chars: &mut Vec<char>) -> (res: LocalLanguage)
        ensures
            final(chars)@ == old(chars)@ + r.symbols(),
            res.lists() == linearize_lists(r, old(chars).len()),
            res@ == linearize(r, old(chars)@.len() as int),
        decreases r,
    {
        match r {
            Regex::Terminal(c) => {
                let idx = chars.len();
                chars.push(c);
                assert(chars@ =~= old(chars)@ + r.symbols());
                LocalLanguage::from_litteral(idx)
            },
            Regex::Epsilon => {
                assert(chars@ =~= old(chars)@ + r.symbols());
                LocalLanguage::empty()
            },
            Regex::Concatenation(r1, r2) => {
                let mut left = LocalLanguage::from_regex_rec(*r1, chars);
                let right = LocalLanguage::from_regex_rec(*r2, chars);
                left.concatenation(right);
                assert(chars@ =~= old(chars)@ + r.symbols());
                left
            },
            Regex::Alternative(r1, r2) => {
                let mut left = LocalLanguage::from_regex_rec(*r1, chars);
                let right = LocalLanguage::from_regex_rec(*r2, chars);
                left.either(right);
                assert(chars@ =~= old(chars)@ + r.symbols());
                left
            },
            Regex::Optional(r1) => {
                let mut res = LocalLanguage::from_regex_rec(*r1, chars);
                res.optional();
                res
            },
            Regex::Star(r1) => {
                let mut res = LocalLanguage::from_regex_rec(*r1, chars);
                res.repeat();
                res
            },
        }
    }

    /// Linearises `r`: returns its local language over the positions of its
    /// terminals, numbered from 0 from left to right, and the symbol of each
    /// position. Read through these symbols, the local language is the
    /// language of `r`.
    pub fn from_regex(r: Regex) -> (res: (LocalLanguage, Vec<char>))
        ensures
            res.1@ == r.symbols(),
            res.0.lists() == linearize_lists(r, 0),
            res.0@ == linearize(r, 0),
            res.0@.within(0, res.1@.len() as int),
            forall|w: Seq<char>| r.matches(w) <==> #[trigger] res.0@.recognizes(res.1@, w),
    {
        let mut vec: Vec<char> = Vec::new();
        let ll = LocalLanguage::from_regex_rec(r, &mut vec);
        proof {
            assert(vec@ =~= r.symbols());
            lemma_linearize_within(r, 0);
            assert forall|w: Seq<char>| r.matches(w) <==> #[trigger] ll@.recognizes(vec@, w) by {
                theorem_linearize_recognizes(r, w);
            }
        }
        (ll, vec)
    }
}

impl Clone for LocalLanguage {
    fn clone(&self) -> (res: Self)
        ensures
            res.accept_empty == self.accept_empty,
            res.prefixes@ == self.prefixes@,
            res.suffixes@ == self.suffixes@,
            res.factors@ == self.factors@,
    {
        let prefixes = self.prefixes.clone();
        let suffixes = self.suffixes.clone();
        let mut factors: Vec<(usize, usize)> = Vec::new();
        let mut i: usize = 0;
        while i < self.factors.len()
            invariant
                i <= self.factors@.len(),
                factors@ == self.factors@.take(i as int),
            decreases self.factors@.len() - i,
        {
            factors.push(self.factors[i]);
            assert(factors@ =~= self.factors@.take(i + 1));
            i += 1;
        }
        assert(factors@ =~= self.factors@);
        assert(prefixes@ =~= self.prefixes@);
        assert(suffixes@ =~= self.suffixes@);
        LocalLanguage { accept_empty: self.accept_empty, prefixes, suffixes, factors }
    }
}

} // verus!
