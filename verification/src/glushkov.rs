//! Why linearisation is right: the local language of a linearised expression
//! spells exactly the words that the expression matches, and the automaton
//! of a local language accepts exactly the words that it spells.
use vstd::prelude::*;
use crate::regex::Regex;
use crate::local_language::{LocalSpec, linearize, pair_set};
use crate::nfa::glushkov_automaton;

verus! {

/// The symbols of `r` stand in `table` from position `start` on.
pub open spec fn labelled(table: Seq<char>, r: Regex, start: int) -> bool {
    &&& 0 <= start
    &&& start + r.symbols().len() <= table.len()
    &&& forall|i: int| 0 <= i < r.symbols().len() ==> table[start + i] == #[trigger] r.symbols()[i]
}

/// A linearised expression only mentions the positions given to its terminals.
pub proof fn lemma_linearize_within(r: Regex, start: int)
    ensures
        linearize(r, start).within(start, start + r.symbols().len()),
    decreases r,
{
    match r {
        Regex::Terminal(_) => {},
        Regex::Epsilon => {},
        Regex::Concatenation(a, b) => {
            lemma_linearize_within(*a, start);
            lemma_linearize_within(*b, start + a.symbols().len());
        },
        Regex::Alternative(a, b) => {
            lemma_linearize_within(*a, start);
            lemma_linearize_within(*b, start + a.symbols().len());
        },
        Regex::Optional(a) => {
            lemma_linearize_within(*a, start);
        },
        Regex::Star(a) => {
            lemma_linearize_within(*a, start);
        },
    }
}

/// Where the symbols of an expression made of `a` and `b` stand in `table`,
/// so do those of `a` and, after them, those of `b`.
proof fn lemma_labelled_pair(table: Seq<char>, r: Regex, a: Regex, b: Regex, start: int)
    requires
        labelled(table, r, start),
        r.symbols() == a.symbols() + b.symbols(),
    ensures
        labelled(table, a, start),
        labelled(table, b, start + a.symbols().len()),
{
    let n = a.symbols().len() as int;
    assert forall|i: int| 0 <= i < a.symbols().len() implies table[start + i]
        == #[trigger] a.symbols()[i] by {
        assert(r.symbols()[i] == a.symbols()[i]);
    }
    assert forall|i: int| 0 <= i < b.symbols().len() implies table[start + n + i]
        == #[trigger] b.symbols()[i] by {
        assert(r.symbols()[n + i] == b.symbols()[i]);
    }
}

/// Spelling goes through concatenation.
proof fn lemma_spells_concat(
    table: Seq<char>,
    pu: Seq<int>,
    pv: Seq<int>,
    u: Seq<char>,
    v: Seq<char>,
)
    requires
        LocalSpec::spells(table, pu, u),
        LocalSpec::spells(table, pv, v),
    ensures
        LocalSpec::spells(table, pu + pv, u + v),
{
    let p = pu + pv;
    let w = u + v;
    assert forall|i: int| 0 <= i < p.len() implies 0 <= #[trigger] p[i] < table.len() && table[p[i]]
        == w[i] by {
        if i < pu.len() {
            assert(p[i] == pu[i]);
        } else {
            assert(p[i] == pv[i - pu.len()]);
        }
    }
}

/// Spelling goes through cutting a word in two.
proof fn lemma_spells_split(table: Seq<char>, p: Seq<int>, w: Seq<char>, k: int)
    requires
        LocalSpec::spells(table, p, w),
        0 <= k <= p.len(),
    ensures
        LocalSpec::spells(table, p.subrange(0, k), w.subrange(0, k)),
        LocalSpec::spells(table, p.subrange(k, p.len() as int), w.subrange(k, w.len() as int)),
{
    let pu = p.subrange(0, k);
    let pv = p.subrange(k, p.len() as int);
    assert forall|i: int| 0 <= i < pu.len() implies 0 <= #[trigger] pu[i] < table.len()
        && table[pu[i]] == w.subrange(0, k)[i] by {
        assert(pu[i] == p[i]);
    }
    assert forall|i: int| 0 <= i < pv.len() implies 0 <= #[trigger] pv[i] < table.len()
        && table[pv[i]] == w.subrange(k, w.len() as int)[i] by {
        assert(pv[i] == p[k + i]);
    }
}

/// A word of `la` followed by a word of `lb` is a word of their concatenation.
pub proof fn lemma_concatenation_accepts(la: LocalSpec, lb: LocalSpec, pu: Seq<int>, pv: Seq<int>)
    requires
        la.accepts(pu),
        lb.accepts(pv),
    ensures
        la.concatenation(lb).accepts(pu + pv),
{
    let p = pu + pv;
    let lc = la.concatenation(lb);
    if pu.len() == 0 {
        assert(p =~= pv);
        assert forall|i: int| 0 <= i < p.len() - 1 implies #[trigger] lc.linked(p, i) by {
            assert(lb.linked(pv, i));
        }
    } else if pv.len() == 0 {
        assert(p =~= pu);
        assert forall|i: int| 0 <= i < p.len() - 1 implies #[trigger] lc.linked(p, i) by {
            assert(la.linked(pu, i));
        }
    } else {
        assert(p[0] == pu[0]);
        assert(p.last() == pv.last());
        assert forall|i: int| 0 <= i < p.len() - 1 implies #[trigger] lc.linked(p, i) by {
            if i < pu.len() - 1 {
                assert(la.linked(pu, i));
                assert(p[i] == pu[i] && p[i + 1] == pu[i + 1]);
            } else if i == pu.len() - 1 {
                assert(p[i] == pu.last());
                assert(p[i + 1] == pv[0]);
                assert(pair_set(la.suffixes, lb.prefixes).contains((p[i], p[i + 1])));
            } else {
                let j = i - pu.len();
                assert(lb.linked(pv, j));
                assert(p[i] == pv[j] && p[i + 1] == pv[j + 1]);
            }
        }
    }
}

/// A non-empty word of `la` followed by a word of its star is a word of its star.
pub proof fn lemma_repeat_accepts(la: LocalSpec, pu: Seq<int>, pv: Seq<int>)
    requires
        la.accepts(pu),
        pu.len() > 0,
        la.repeat().accepts(pv),
    ensures
        la.repeat().accepts(pu + pv),
{
    let p = pu + pv;
    let ls = la.repeat();
    if pv.len() == 0 {
        assert(p =~= pu);
        assert forall|i: int| 0 <= i < p.len() - 1 implies #[trigger] ls.linked(p, i) by {
            assert(la.linked(pu, i));
        }
    } else {
        assert(p[0] == pu[0]);
        assert(p.last() == pv.last());
        assert forall|i: int| 0 <= i < p.len() - 1 implies #[trigger] ls.linked(p, i) by {
            if i < pu.len() - 1 {
                assert(la.linked(pu, i));
                assert(p[i] == pu[i] && p[i + 1] == pu[i + 1]);
            } else if i == pu.len() - 1 {
                assert(p[i] == pu.last());
                assert(p[i + 1] == pv[0]);
                assert(pair_set(la.suffixes, la.prefixes).contains((p[i], p[i + 1])));
            } else {
                let j = i - pu.len();
                assert(ls.linked(pv, j));
                assert(p[i] == pv[j] && p[i + 1] == pv[j + 1]);
            }
        }
    }
}

/// Every word that `r` matches is spelled by a word of positions that the
/// linearised expression accepts.
pub proof fn lemma_matches_to_positions(r: Regex, start: int, table: Seq<char>, w: Seq<char>) -> (p:
    Seq<int>)
    requires
        labelled(table, r, start),
        r.matches(w),
    ensures
        linearize(r, start).accepts(p),
        LocalSpec::spells(table, p, w),
    decreases r, w.len(),
{
    match r {
        Regex::Terminal(c) => {
            let p = seq![start];
            assert(w == seq![c]);
            assert(r.symbols()[0] == c);
            assert(linearize(r, start) == LocalSpec::literal(start));
            assert(linearize(r, start).accepts(p));
            assert(LocalSpec::spells(table, p, w));
            p
        },
        Regex::Epsilon => Seq::empty(),
        Regex::Concatenation(a, b) => {
            let k = choose|k: int|
                0 <= k <= w.len() && a.matches(#[trigger] w.subrange(0, k)) && b.matches(
                    w.subrange(k, w.len() as int),
                );
            let u = w.subrange(0, k);
            let v = w.subrange(k, w.len() as int);
            let mid = start + a.symbols().len();
            lemma_labelled_pair(table, r, *a, *b, start);
            let pu = lemma_matches_to_positions(*a, start, table, u);
            let pv = lemma_matches_to_positions(*b, mid, table, v);
            lemma_concatenation_accepts(linearize(*a, start), linearize(*b, mid), pu, pv);
            lemma_spells_concat(table, pu, pv, u, v);
            assert(u + v =~= w);
            pu + pv
        },
        Regex::Alternative(a, b) => {
            lemma_labelled_pair(table, r, *a, *b, start);
            let la = linearize(*a, start);
            let lb = linearize(*b, start + a.symbols().len());
            if a.matches(w) {
                let p = lemma_matches_to_positions(*a, start, table, w);
                assert forall|i: int| 0 <= i < p.len() - 1 implies #[trigger] la.either(lb).linked(
                    p,
                    i,
                ) by {
                    assert(la.linked(p, i));
                }
                p
            } else {
                let p = lemma_matches_to_positions(*b, start + a.symbols().len(), table, w);
                assert forall|i: int| 0 <= i < p.len() - 1 implies #[trigger] la.either(lb).linked(
                    p,
                    i,
                ) by {
                    assert(lb.linked(p, i));
                }
                p
            }
        },
        Regex::Optional(a) => {
            if w.len() == 0 {
                Seq::empty()
            } else {
                let la = linearize(*a, start);
                let p = lemma_matches_to_positions(*a, start, table, w);
                assert forall|i: int| 0 <= i < p.len() - 1 implies #[trigger] la.optional().linked(
                    p,
                    i,
                ) by {
                    assert(la.linked(p, i));
                }
                p
            }
        },
        Regex::Star(a) => {
            if w.len() == 0 {
                Seq::empty()
            } else {
                let k = choose|k: int|
                    0 < k <= w.len() && a.matches(#[trigger] w.subrange(0, k)) && r.matches(
                        w.subrange(k, w.len() as int),
                    );
                let u = w.subrange(0, k);
                let v = w.subrange(k, w.len() as int);
                let pu = lemma_matches_to_positions(*a, start, table, u);
                let pv = lemma_matches_to_positions(r, start, table, v);
                lemma_repeat_accepts(linearize(*a, start), pu, pv);
                lemma_spells_concat(table, pu, pv, u, v);
                assert(u + v =~= w);
                pu + pv
            }
        },
    }
}

/// The first index from `j` on at which `p` holds a position not below
/// `bound`, or the length of `p` if there is none.
proof fn lemma_first_reaching(p: Seq<int>, bound: int, j: int) -> (k: int)
    requires
        0 <= j <= p.len(),
        forall|i: int| 0 <= i < j ==> #[trigger] p[i] < bound,
    ensures
        j <= k <= p.len(),
        forall|i: int| 0 <= i < k ==> #[trigger] p[i] < bound,
        k < p.len() ==> p[k] >= bound,
    decreases p.len() - j,
{
    if j == p.len() || p[j] >= bound {
        j
    } else {
        lemma_first_reaching(p, bound, j + 1)
    }
}

/// The first index from `j` on at which `p` holds two consecutive positions
/// that are no factor of `l`, or the length of `p` if there is none.
proof fn lemma_first_break(l: LocalSpec, p: Seq<int>, j: int) -> (k: int)
    requires
        1 <= j <= p.len(),
        forall|i: int| 0 <= i < j - 1 ==> #[trigger] l.linked(p, i),
    ensures
        j <= k <= p.len(),
        forall|i: int| 0 <= i < k - 1 ==> #[trigger] l.linked(p, i),
        k < p.len() ==> !l.linked(p, k - 1),
    decreases p.len() - j,
{
    if j == p.len() || !l.linked(p, j - 1) {
        j
    } else {
        lemma_first_break(l, p, j + 1)
    }
}

/// In a word accepted by a concatenation, no position of the left operand
/// follows a position of the right operand.
proof fn lemma_concatenation_order(
    la: LocalSpec,
    lb: LocalSpec,
    lo: int,
    mid: int,
    hi: int,
    p: Seq<int>,
    k: int,
    i: int,
)
    requires
        la.within(lo, mid),
        lb.within(mid, hi),
        la.concatenation(lb).accepts(p),
        0 <= k <= i < p.len(),
        p[k] >= mid,
    ensures
        p[i] >= mid,
    decreases i - k,
{
    if i > k {
        lemma_concatenation_order(la, lb, lo, mid, hi, p, k, i - 1);
        assert(la.concatenation(lb).linked(p, i - 1));
    }
}

/// A word accepted by the concatenation of two local languages over disjoint
/// ranges of positions splits into a word of the first and a word of the second.
pub proof fn lemma_concatenation_split(
    la: LocalSpec,
    lb: LocalSpec,
    lo: int,
    mid: int,
    hi: int,
    p: Seq<int>,
) -> (k: int)
    requires
        la.within(lo, mid),
        lb.within(mid, hi),
        la.concatenation(lb).accepts(p),
    ensures
        0 <= k <= p.len(),
        la.accepts(p.subrange(0, k)),
        lb.accepts(p.subrange(k, p.len() as int)),
{
    let lc = la.concatenation(lb);
    let k = lemma_first_reaching(p, mid, 0);
    let pu = p.subrange(0, k);
    let pv = p.subrange(k, p.len() as int);
    assert forall|i: int| k <= i < p.len() implies p[i] >= mid by {
        lemma_concatenation_order(la, lb, lo, mid, hi, p, k, i);
    }
    if p.len() > 0 {
        assert(lc.prefixes.contains(p[0]));
        assert(lc.suffixes.contains(p[p.len() - 1]));
    }
    if 0 < k < p.len() {
        assert(lc.linked(p, k - 1));
        assert(p[k - 1] < mid);
        assert(p[k] >= mid);
        assert(pair_set(la.suffixes, lb.prefixes).contains((p[k - 1], p[k])));
    }
    assert(la.accepts(pu)) by {
        if k > 0 {
            assert(pu[0] == p[0]);
            assert(pu.last() == p[k - 1]);
            assert(p[0] < mid);
            assert(la.prefixes.contains(pu[0]));
            assert(la.suffixes.contains(pu.last()));
            assert forall|i: int| 0 <= i < pu.len() - 1 implies #[trigger] la.linked(pu, i) by {
                assert(lc.linked(p, i));
                assert(pu[i] == p[i] && pu[i + 1] == p[i + 1]);
                assert(p[i] < mid && p[i + 1] < mid);
            }
        } else {
            if p.len() > 0 {
                assert(p[0] >= mid);
            }
        }
    }
    assert(lb.accepts(pv)) by {
        if k < p.len() {
            assert(pv[0] == p[k]);
            assert(pv.last() == p[p.len() - 1]);
            assert(p[p.len() - 1] >= mid);
            assert(lb.prefixes.contains(pv[0]));
            assert(lb.suffixes.contains(pv.last()));
            assert forall|i: int| 0 <= i < pv.len() - 1 implies #[trigger] lb.linked(pv, i) by {
                assert(lc.linked(p, k + i));
                assert(pv[i] == p[k + i] && pv[i + 1] == p[k + i + 1]);
                assert(p[k + i] >= mid && p[k + i + 1] >= mid);
            }
        } else {
            if p.len() > 0 {
                assert(p[p.len() - 1] < mid);
            }
        }
    }
    k
}

/// In a word accepted by a union, every position lies on the same side of
/// `mid` as the first.
proof fn lemma_either_stays(
    la: LocalSpec,
    lb: LocalSpec,
    lo: int,
    mid: int,
    hi: int,
    p: Seq<int>,
    i: int,
)
    requires
        la.within(lo, mid),
        lb.within(mid, hi),
        la.either(lb).accepts(p),
        0 <= i < p.len(),
    ensures
        p[i] < mid <==> p[0] < mid,
    decreases i,
{
    if i > 0 {
        lemma_either_stays(la, lb, lo, mid, hi, p, i - 1);
        assert(la.either(lb).linked(p, i - 1));
    }
}

/// A word accepted by the union of two local languages over disjoint ranges
/// of positions is a word of one of them.
pub proof fn lemma_either_split(
    la: LocalSpec,
    lb: LocalSpec,
    lo: int,
    mid: int,
    hi: int,
    p: Seq<int>,
)
    requires
        la.within(lo, mid),
        lb.within(mid, hi),
        la.either(lb).accepts(p),
    ensures
        la.accepts(p) || lb.accepts(p),
{
    let lc = la.either(lb);
    if p.len() > 0 {
        assert(lc.prefixes.contains(p[0]));
        assert(lc.suffixes.contains(p[p.len() - 1]));
        assert forall|i: int| 0 <= i < p.len() implies (#[trigger] p[i] < mid <==> p[0] < mid) by {
            lemma_either_stays(la, lb, lo, mid, hi, p, i);
        }
        if p[0] < mid {
            assert(p[p.len() - 1] < mid);
            assert forall|i: int| 0 <= i < p.len() - 1 implies #[trigger] la.linked(p, i) by {
                assert(lc.linked(p, i));
                assert(p[i] < mid);
            }
            assert(la.accepts(p));
        } else {
            assert(p[p.len() - 1] >= mid);
            assert forall|i: int| 0 <= i < p.len() - 1 implies #[trigger] lb.linked(p, i) by {
                assert(lc.linked(p, i));
                assert(p[i] >= mid);
            }
            assert(lb.accepts(p));
        }
    }
}

/// A non-empty word accepted by the star of a local language splits into a
/// non-empty word of that language and a word of its star.
pub proof fn lemma_repeat_split(la: LocalSpec, p: Seq<int>) -> (k: int)
    requires
        la.repeat().accepts(p),
        p.len() > 0,
    ensures
        0 < k <= p.len(),
        la.accepts(p.subrange(0, k)),
        la.repeat().accepts(p.subrange(k, p.len() as int)),
{
    let ls = la.repeat();
    let k = lemma_first_break(la, p, 1);
    let pu = p.subrange(0, k);
    let pv = p.subrange(k, p.len() as int);
    if k < p.len() {
        assert(ls.linked(p, k - 1));
        assert(pair_set(la.suffixes, la.prefixes).contains((p[k - 1], p[k])));
    }
    assert(la.accepts(pu)) by {
        assert(pu[0] == p[0]);
        assert(pu.last() == p[k - 1]);
        assert forall|i: int| 0 <= i < pu.len() - 1 implies #[trigger] la.linked(pu, i) by {
            assert(la.linked(p, i));
            assert(pu[i] == p[i] && pu[i + 1] == p[i + 1]);
        }
    }
    assert(ls.accepts(pv)) by {
        if k < p.len() {
            assert(pv[0] == p[k]);
            assert(pv.last() == p[p.len() - 1]);
            assert forall|i: int| 0 <= i < pv.len() - 1 implies #[trigger] ls.linked(pv, i) by {
                assert(ls.linked(p, k + i));
                assert(pv[i] == p[k + i] && pv[i + 1] == p[k + i + 1]);
            }
        }
    }
    k
}

/// Every word spelled by a word of positions that the linearised expression
/// accepts is matched by `r`.
pub proof fn lemma_positions_to_matches(
    r: Regex,
    start: int,
    table: Seq<char>,
    w: Seq<char>,
    p: Seq<int>,
)
    requires
        labelled(table, r, start),
        linearize(r, start).accepts(p),
        LocalSpec::spells(table, p, w),
    ensures
        r.matches(w),
    decreases r, w.len(),
{
    match r {
        Regex::Terminal(c) => {
            let l = linearize(r, start);
            assert(l == LocalSpec::literal(start));
            assert(r.symbols()[0] == c);
            if p.len() >= 2 {
                assert(l.linked(p, 0));
            }
            assert(p.len() == 1);
            assert(p[0] == start);
            assert(w =~= seq![c]);
        },
        Regex::Epsilon => {
            assert(linearize(r, start) == LocalSpec::empty());
            assert(p.len() == 0);
        },
        Regex::Concatenation(a, b) => {
            let mid = start + a.symbols().len();
            let hi = mid + b.symbols().len();
            lemma_labelled_pair(table, r, *a, *b, start);
            lemma_linearize_within(*a, start);
            lemma_linearize_within(*b, mid);
            let k = lemma_concatenation_split(
                linearize(*a, start),
                linearize(*b, mid),
                start,
                mid,
                hi,
                p,
            );
            lemma_spells_split(table, p, w, k);
            lemma_positions_to_matches(*a, start, table, w.subrange(0, k), p.subrange(0, k));
            lemma_positions_to_matches(
                *b,
                mid,
                table,
                w.subrange(k, w.len() as int),
                p.subrange(k, p.len() as int),
            );
            assert(a.matches(w.subrange(0, k)) && b.matches(w.subrange(k, w.len() as int)));
        },
        Regex::Alternative(a, b) => {
            let mid = start + a.symbols().len();
            let hi = mid + b.symbols().len();
            lemma_labelled_pair(table, r, *a, *b, start);
            lemma_linearize_within(*a, start);
            lemma_linearize_within(*b, mid);
            lemma_either_split(linearize(*a, start), linearize(*b, mid), start, mid, hi, p);
            if linearize(*a, start).accepts(p) {
                lemma_positions_to_matches(*a, start, table, w, p);
            } else {
                lemma_positions_to_matches(*b, mid, table, w, p);
            }
        },
        Regex::Optional(a) => {
            if p.len() > 0 {
                let la = linearize(*a, start);
                assert forall|i: int| 0 <= i < p.len() - 1 implies #[trigger] la.linked(p, i) by {
                    assert(la.optional().linked(p, i));
                }
                lemma_positions_to_matches(*a, start, table, w, p);
            }
        },
        Regex::Star(a) => {
            if p.len() > 0 {
                let k = lemma_repeat_split(linearize(*a, start), p);
                lemma_spells_split(table, p, w, k);
                lemma_positions_to_matches(*a, start, table, w.subrange(0, k), p.subrange(0, k));
                lemma_positions_to_matches(
                    r,
                    start,
                    table,
                    w.subrange(k, w.len() as int),
                    p.subrange(k, p.len() as int),
                );
                assert(a.matches(w.subrange(0, k)) && r.matches(w.subrange(k, w.len() as int)));
            }
        },
    }
}

/// The local language of a linearised expression, read through the symbols
/// of its positions, is the language of the expression.
pub proof fn theorem_linearize_recognizes(r: Regex, w: Seq<char>)
    ensures
        r.matches(w) <==> linearize(r, 0).recognizes(r.symbols(), w),
{
    if r.matches(w) {
        let p = lemma_matches_to_positions(r, 0, r.symbols(), w);
        assert(linearize(r, 0).accepts(p) && LocalSpec::spells(r.symbols(), p, w));
    }
    if linearize(r, 0).recognizes(r.symbols(), w) {
        let p = choose|p: Seq<int>| #[trigger]
            linearize(r, 0).accepts(p) && LocalSpec::spells(r.symbols(), p, w);
        lemma_positions_to_matches(r, 0, r.symbols(), w, p);
    }
}

/// `p` is a way into the local language `l` that spells `w`: it starts with
/// a prefix and each two consecutive positions form a factor.
pub open spec fn is_path(l: LocalSpec, symbols: Seq<char>, p: Seq<int>, w: Seq<char>) -> bool {
    &&& LocalSpec::spells(symbols, p, w)
    &&& p.len() > 0
    &&& l.prefixes.contains(p[0])
    &&& forall|i: int| 0 <= i < p.len() - 1 ==> #[trigger] l.linked(p, i)
}

/// A state that the automaton of `l` reaches by a non-empty word `w` is the
/// end of a way into `l` that spells `w`.
proof fn lemma_reach_to_path(l: LocalSpec, symbols: Seq<char>, w: Seq<char>, q: int) -> (p: Seq<
    int,
>)
    requires
        l.within(0, symbols.len() as int),
        w.len() > 0,
        glushkov_automaton(l, symbols).reach(w).contains(q),
    ensures
        is_path(l, symbols, p, w),
        p.last() == q,
    decreases w.len(),
{
    let g = glushkov_automaton(l, symbols);
    let v = w.drop_last();
    let c = w.last();
    let s = choose|s: int| g.reach(v).contains(s) && #[trigger] g.edges.contains((s, c, q));
    if v.len() == 0 {
        let p = seq![q];
        assert(l.prefixes.contains(q));
        assert(is_path(l, symbols, p, w));
        p
    } else {
        let pv = lemma_reach_to_path(l, symbols, v, s);
        let p = pv.push(q);
        assert(0 <= pv[pv.len() - 1] < symbols.len());
        assert(l.factors.contains((s, q)));
        assert forall|i: int| 0 <= i < p.len() - 1 implies #[trigger] l.linked(p, i) by {
            if i < pv.len() - 1 {
                assert(l.linked(pv, i));
                assert(p[i] == pv[i] && p[i + 1] == pv[i + 1]);
            } else {
                assert(p[i] == s && p[i + 1] == q);
            }
        }
        assert forall|i: int| 0 <= i < p.len() implies 0 <= #[trigger] p[i] < symbols.len()
            && symbols[p[i]] == w[i] by {
            if i < pv.len() {
                assert(p[i] == pv[i]);
                assert(v[i] == w[i]);
            }
        }
        assert(p[0] == pv[0]);
        p
    }
}

/// The end of a way into `l` that spells `w` is a state that the automaton
/// of `l` reaches by `w`.
proof fn lemma_path_to_reach(l: LocalSpec, symbols: Seq<char>, w: Seq<char>, p: Seq<int>)
    requires
        l.within(0, symbols.len() as int),
        is_path(l, symbols, p, w),
    ensures
        glushkov_automaton(l, symbols).reach(w).contains(p.last()),
    decreases w.len(),
{
    let g = glushkov_automaton(l, symbols);
    let n = symbols.len() as int;
    let v = w.drop_last();
    let c = w.last();
    let q = p.last();
    assert(0 <= p[p.len() - 1] < symbols.len() && symbols[p[p.len() - 1]] == w[p.len() - 1]);
    if w.len() == 1 {
        assert(g.reach(v).contains(n));
        assert(g.edges.contains((n, c, q)));
    } else {
        let pv = p.drop_last();
        assert forall|i: int| 0 <= i < pv.len() - 1 implies #[trigger] l.linked(pv, i) by {
            assert(l.linked(p, i));
            assert(p[i] == pv[i] && p[i + 1] == pv[i + 1]);
        }
        assert forall|i: int| 0 <= i < pv.len() implies 0 <= #[trigger] pv[i] < symbols.len()
            && symbols[pv[i]] == v[i] by {
            assert(p[i] == pv[i]);
        }
        assert(pv[0] == p[0]);
        lemma_path_to_reach(l, symbols, v, pv);
        let s = pv.last();
        assert(l.linked(p, p.len() - 2));
        assert(g.reach(v).contains(s));
        assert(g.edges.contains((s, c, q)));
    }
}

/// The automaton of a local language accepts the words that the local
/// language spells.
pub proof fn theorem_automaton_recognizes(l: LocalSpec, symbols: Seq<char>, w: Seq<char>)
    requires
        l.within(0, symbols.len() as int),
    ensures
        glushkov_automaton(l, symbols).accepts(w) <==> l.recognizes(symbols, w),
{
    let g = glushkov_automaton(l, symbols);
    let n = symbols.len() as int;
    if w.len() == 0 {
        if g.accepts(w) {
            let q = choose|q: int| #[trigger] g.reach(w).contains(q) && g.finals.contains(q);
            assert(q == n);
            assert(l.accept_empty);
            let p = Seq::<int>::empty();
            assert(l.accepts(p) && LocalSpec::spells(symbols, p, w));
        }
        if l.recognizes(symbols, w) {
            let p = choose|p: Seq<int>| #[trigger] l.accepts(p) && LocalSpec::spells(symbols, p, w);
            assert(p.len() == 0);
            assert(g.reach(w).contains(n) && g.finals.contains(n));
        }
    } else {
        if g.accepts(w) {
            let q = choose|q: int| #[trigger] g.reach(w).contains(q) && g.finals.contains(q);
            let p = lemma_reach_to_path(l, symbols, w, q);
            assert(0 <= p[p.len() - 1] < symbols.len());
            assert(l.accepts(p) && LocalSpec::spells(symbols, p, w));
        }
        if l.recognizes(symbols, w) {
            let p = choose|p: Seq<int>| #[trigger] l.accepts(p) && LocalSpec::spells(symbols, p, w);
            assert(is_path(l, symbols, p, w));
            lemma_path_to_reach(l, symbols, w, p);
            assert(g.reach(w).contains(p.last()) && g.finals.contains(p.last()));
        }
    }
}

} // verus!
