//! Nondeterministic automata without silent moves, built from local
//! languages and turned into deterministic automata by the subset
//! construction.
use vstd::prelude::*;
use std::collections::HashSet;
use crate::local_language::{
    LocalLanguage, LocalSpec, position_set, factor_set, lemma_position_set_push,
    lemma_position_set_empty, lemma_factor_set_push,
};
use crate::glushkov::theorem_automaton_recognizes;
use crate::alphabet::{is_word, is_symbol, symbol, letter, lemma_rank_symbol};
use crate::counting::lemma_distinct_bits;
use crate::dfa::{DFA, copy_states};
use crate::exploration::{
    System, presents, exploring, row_follows, distinct, lemma_exploring_start,
    lemma_exploring_pop, lemma_exploring_discover, lemma_exploring_write,
    lemma_exploring_finished, lemma_presents_language, lemma_row_follows_next,
    lemma_row_follows_push, in_discovery_order, explored, expand, new_states,
    lemma_expand_known, lemma_expand_new,
};
use vstd::arithmetic::power2::pow2;

verus! {

broadcast use vstd::std_specs::hash::group_hash_axioms;

/// A nondeterministic finite automaton with one initial state. Its states
/// are the indices of `transitions`; `transitions[s]` lists the moves from
/// state `s`, each as a symbol and the state it leads to.
#[derive(Debug)]
pub struct NFA {
    initial: usize,
    finals: HashSet<usize>,
    transitions: Vec<Vec<(char, usize)>>,
}

/// The mathematical content of an [`NFA`]: states are `0..size`, and an edge
/// `(s, c, t)` is a move from `s` to `t` on the symbol `c`.
pub struct NfaSpec {
    pub size: int,
    pub initial: int,
    pub finals: Set<int>,
    pub edges: Set<(int, char, int)>,
}

impl NfaSpec {
    /// The initial state and the ends of every edge are states.
    pub open spec fn wf(self) -> bool {
        &&& 0 <= self.initial < self.size
        &&& forall|e: (int, char, int)| #[trigger]
            self.edges.contains(e) ==> 0 <= e.0 < self.size && 0 <= e.2 < self.size
    }

    /// The states reached from a state of `states` by one move on `c`.
    pub open spec fn step(self, states: Set<int>, c: char) -> Set<int> {
        Set::new(
            |t: int|
                exists|s: int| states.contains(s) && #[trigger] self.edges.contains((s, c, t)),
        )
    }

    /// The states reached from the initial state by reading `w`.
    pub open spec fn reach(self, w: Seq<char>) -> Set<int>
        decreases w.len(),
    {
        if w.len() == 0 {
            set![self.initial]
        } else {
            self.step(self.reach(w.drop_last()), w.last())
        }
    }

    /// Whether `states` holds a final state.
    pub open spec fn meets_finals(self, states: Set<int>) -> bool {
        exists|q: int| #[trigger] states.contains(q) && self.finals.contains(q)
    }

    /// Whether the automaton accepts `w`: reading it from the initial state
    /// may end in a final state.
    pub open spec fn accepts(self, w: Seq<char>) -> bool {
        self.meets_finals(self.reach(w))
    }
}

/// The set of states listed in `states`.
pub open spec fn state_set(states: Set<usize>) -> Set<int> {
    Set::new(|q: int| 0 <= q <= usize::MAX && states.contains(q as usize))
}

/// The set of moves listed in `rows`.
pub open spec fn edge_set(rows: Seq<Vec<(char, usize)>>) -> Set<(int, char, int)> {
    Set::new(
        |e: (int, char, int)|
            0 <= e.0 < rows.len() && exists|j: int|
                0 <= j < rows[e.0]@.len() && (#[trigger] rows[e.0]@[j]).0 == e.1 && rows[e.0]@[j].1
                    == e.2,
    )
}

/// The moves from the initial state `n` to the positions of `prefixes`, each
/// on the symbol of the position it leads to.
pub open spec fn prefix_edges(prefixes: Set<int>, symbols: Seq<char>) -> Set<(int, char, int)> {
    Set::new(
        |e: (int, char, int)|
            e.0 == symbols.len() && prefixes.contains(e.2) && 0 <= e.2 < symbols.len()
                && symbols[e.2] == e.1,
    )
}

/// The moves along the pairs of `factors`, each on the symbol of the position
/// it leads to.
pub open spec fn factor_edges(factors: Set<(int, int)>, symbols: Seq<char>) -> Set<
    (int, char, int),
> {
    Set::new(
        |e: (int, char, int)|
            factors.contains((e.0, e.2)) && 0 <= e.2 < symbols.len() && symbols[e.2] == e.1,
    )
}

/// The automaton of a local language whose positions carry the symbols
/// `symbols`: one state for each position and one more, the initial state;
/// a move from the initial state to each prefix and along each factor, on
/// the symbol of the position reached; the suffixes are final, and so is the
/// initial state when the empty word is accepted.
pub open spec fn glushkov_automaton(l: LocalSpec, symbols: Seq<char>) -> NfaSpec {
    let n = symbols.len() as int;
    NfaSpec {
        size: n + 1,
        initial: n,
        finals: if l.accept_empty {
            l.suffixes.insert(n)
        } else {
            l.suffixes
        },
        edges: prefix_edges(l.prefixes, symbols) + factor_edges(l.factors, symbols),
    }
}

/// Adding a move at the end of the row of state `s` adds it to the set of moves.
proof fn lemma_edge_set_push(
    rows: Seq<Vec<(char, usize)>>,
    rows2: Seq<Vec<(char, usize)>>,
    s: int,
    c: char,
    t: usize,
)
    requires
        0 <= s < rows.len(),
        rows2.len() == rows.len(),
        forall|k: int| 0 <= k < rows.len() && k != s ==> rows2[k] == rows[k],
        rows2[s]@ == rows[s]@.push((c, t)),
    ensures
        edge_set(rows2) == edge_set(rows).insert((s, c, t as int)),
{
    let goal = edge_set(rows).insert((s, c, t as int));
    assert forall|e: (int, char, int)| edge_set(rows2).contains(e) implies goal.contains(e) by {
        let j = choose|j: int|
            0 <= j < rows2[e.0]@.len() && (#[trigger] rows2[e.0]@[j]).0 == e.1 && rows2[e.0]@[j].1
                == e.2;
        if e.0 == s {
            if j < rows[s]@.len() {
                assert(rows[s]@[j] == rows2[s]@[j]);
            }
        } else {
            assert(rows[e.0]@[j].0 == e.1);
        }
    }
    assert forall|e: (int, char, int)| goal.contains(e) implies edge_set(rows2).contains(e) by {
        if e == (s, c, t as int) {
            let j = rows[s]@.len() as int;
            assert(rows2[s]@[j].0 == c && rows2[s]@[j].1 == t);
        } else {
            let j = choose|j: int|
                0 <= j < rows[e.0]@.len() && (#[trigger] rows[e.0]@[j]).0 == e.1 && rows[e.0]@[j].1
                    == e.2;
            if e.0 == s {
                assert(rows2[s]@[j] == rows[s]@[j]);
            }
            assert(rows2[e.0]@[j].0 == e.1 && rows2[e.0]@[j].1 == e.2);
        }
    }
    assert(edge_set(rows2) =~= goal);
}

/// The set of states whose entry in `bits` is true.
pub open spec fn bits_set(bits: Seq<bool>) -> Set<int> {
    Set::new(|s: int| 0 <= s < bits.len() && bits[s])
}

/// The sequence of `n` booleans that tells, for each state below `n`,
/// whether it belongs to `states`.
pub open spec fn set_bits(states: Set<int>, n: int) -> Seq<bool> {
    Seq::new(n as nat, |s: int| states.contains(s))
}

/// The subset construction on `nfa` as a system over sets of states, each
/// written as a sequence of booleans: it starts with the initial state
/// alone, a set is followed on a symbol by the set of the states reached
/// from it by one move on that symbol, and it is final when it holds a final
/// state.
pub open spec fn subset_system(nfa: NfaSpec) -> System<Seq<bool>> {
    System {
        start: set_bits(set![nfa.initial], nfa.size),
        next: |bits: Seq<bool>, c: int| set_bits(nfa.step(bits_set(bits), symbol(c)), nfa.size),
        is_final: |bits: Seq<bool>| nfa.meets_finals(bits_set(bits)),
    }
}

/// `dfa` is the subset construction on `nfa` restricted to the sets listed
/// in `subsets`: state `s` of `dfa` stands for `subsets[s]`, no set is
/// listed twice, the initial state stands for the initial state of `nfa`
/// alone, the state reached from `s` on a symbol stands for the set of the
/// states that `nfa` reaches from `subsets[s]` on that symbol, and a state
/// is final exactly when its set holds a final state of `nfa`.
pub open spec fn is_subset_construction(dfa: &DFA, nfa: NfaSpec, subsets: Seq<Set<int>>) -> bool {
    &&& subsets.len() == dfa.states_count
    &&& subsets[dfa.initial as int] == set![nfa.initial]
    &&& forall|s: int, t: int|
        0 <= s < subsets.len() && 0 <= t < subsets.len() && s != t ==> subsets[s] != subsets[t]
    &&& forall|s: int, c: int|
        0 <= s < subsets.len() && 0 <= c < 26 ==> (#[trigger] dfa.transitions@[s]@[c])
            < subsets.len() && subsets[dfa.transitions@[s]@[c] as int] == nfa.step(
            subsets[s],
            symbol(c),
        )
    &&& forall|q: usize|
        q < subsets.len() ==> (#[trigger] dfa.finals@.contains(q) <==> nfa.meets_finals(
            subsets[q as int],
        ))
}

/// Reading a word never leads outside the states.
pub proof fn lemma_reach_within(nfa: NfaSpec, w: Seq<char>)
    requires
        nfa.wf(),
    ensures
        forall|q: int| nfa.reach(w).contains(q) ==> 0 <= q < nfa.size,
    decreases w.len(),
{
    if w.len() > 0 {
        assert forall|q: int| nfa.reach(w).contains(q) implies 0 <= q < nfa.size by {
            let s = choose|s: int|
                nfa.reach(w.drop_last()).contains(s) && #[trigger] nfa.edges.contains(
                    (s, w.last(), q),
                );
        }
    }
}

/// A set of states below `n` is the set of its sequence of `n` booleans.
pub proof fn lemma_bits_set_of_set_bits(states: Set<int>, n: int)
    requires
        forall|q: int| states.contains(q) ==> 0 <= q < n,
    ensures
        bits_set(set_bits(states, n)) == states,
{
    assert(bits_set(set_bits(states, n)) =~= states);
}

/// The subset system goes through the sets of states that `nfa` reaches.
pub proof fn lemma_subset_after(nfa: NfaSpec, w: Seq<char>)
    requires
        nfa.wf(),
        is_word(w),
    ensures
        subset_system(nfa).after(w) == set_bits(nfa.reach(w), nfa.size),
        bits_set(subset_system(nfa).after(w)) == nfa.reach(w),
    decreases w.len(),
{
    lemma_reach_within(nfa, w);
    lemma_bits_set_of_set_bits(nfa.reach(w), nfa.size);
    if w.len() > 0 {
        lemma_subset_after(nfa, w.drop_last());
        assert(is_symbol(w[w.len() - 1]));
        lemma_rank_symbol();
    }
}

/// The sets found while exploring the subset system are no more than the
/// sets of states.
proof fn lemma_subset_bound(nfa: NfaSpec, keys: Seq<Seq<bool>>, words: Seq<Seq<char>>)
    requires
        nfa.wf(),
        words.len() == keys.len(),
        distinct(keys),
        forall|s: int|
            0 <= s < keys.len() ==> is_word(#[trigger] words[s]) && subset_system(nfa).after(
                words[s],
            ) == keys[s],
    ensures
        keys.len() <= pow2(nfa.size as nat),
        forall|s: int| 0 <= s < keys.len() ==> (#[trigger] keys[s]).len() == nfa.size,
{
    assert forall|s: int| 0 <= s < keys.len() implies (#[trigger] keys[s]).len() == nfa.size by {
        lemma_subset_after(nfa, words[s]);
    }
    lemma_distinct_bits(keys, nfa.size as nat);
}

/// The sets of states that the sequences of booleans in `keys` stand for.
pub open spec fn key_sets(keys: Seq<Seq<bool>>) -> Seq<Set<int>> {
    Seq::new(keys.len(), |s: int| bits_set(keys[s]))
}

/// An automaton that presents the subset system, with each key reached by
/// some word, is a subset construction.
proof fn lemma_presents_subsets(
    dfa: &DFA,
    nfa: NfaSpec,
    keys: Seq<Seq<bool>>,
    words: Seq<Seq<char>>,
)
    requires
        nfa.wf(),
        dfa.wf(),
        presents(dfa, subset_system(nfa), keys),
        words.len() == keys.len(),
        forall|s: int|
            0 <= s < keys.len() ==> is_word(#[trigger] words[s]) && subset_system(nfa).after(
                words[s],
            ) == keys[s],
    ensures
        is_subset_construction(dfa, nfa, key_sets(keys)),
{
    let sys = subset_system(nfa);
    let subsets = key_sets(keys);
    lemma_bits_set_of_set_bits(set![nfa.initial], nfa.size);
    assert forall|s: int| 0 <= s < keys.len() implies (#[trigger] keys[s]).len() == nfa.size by {
        lemma_subset_after(nfa, words[s]);
    }
    assert forall|s: int, t: int|
        0 <= s < subsets.len() && 0 <= t < subsets.len() && s != t implies subsets[s]
        != subsets[t] by {
        if subsets[s] == subsets[t] {
            assert forall|i: int| 0 <= i < nfa.size implies keys[s][i] == keys[t][i] by {
                assert(bits_set(keys[s]).contains(i) == keys[s][i]);
                assert(bits_set(keys[t]).contains(i) == keys[t][i]);
            }
            assert(keys[s] =~= keys[t]);
        }
    }
    assert forall|s: int, c: int| 0 <= s < subsets.len() && 0 <= c < 26 implies (
    #[trigger] dfa.transitions@[s]@[c]) < subsets.len() && subsets[dfa.transitions@[s]@[c] as int]
        == nfa.step(subsets[s], symbol(c)) by {
        assert(row_follows(sys, keys, dfa.transitions@[s], s, 26));
        let t = dfa.transitions@[s]@[c] as int;
        assert(keys[t] == (sys.next)(keys[s], c));
        let target = nfa.step(bits_set(keys[s]), symbol(c));
        assert forall|q: int| target.contains(q) implies 0 <= q < nfa.size by {
            let x = choose|x: int|
                bits_set(keys[s]).contains(x) && #[trigger] nfa.edges.contains((x, symbol(c), q));
        }
        lemma_bits_set_of_set_bits(target, nfa.size);
    }
    assert(subsets[dfa.initial as int] == set![nfa.initial]);
    assert forall|q: usize| q < subsets.len() implies (#[trigger] dfa.finals@.contains(q)
        <==> nfa.meets_finals(subsets[q as int])) by {
        assert(dfa.finals@.contains(q) <==> (sys.is_final)(keys[q as int]));
    }
}

/// In a subset construction, the state that stands for the empty set is
/// not final and every symbol leads from it back to itself.
pub proof fn lemma_empty_subset_is_sink(
    dfa: &DFA,
    nfa: NfaSpec,
    subsets: Seq<Set<int>>,
    s: int,
    c: int,
)
    requires
        is_subset_construction(dfa, nfa, subsets),
        0 <= s < subsets.len(),
        subsets[s] == Set::<int>::empty(),
        0 <= c < 26,
    ensures
        dfa.transitions@[s]@[c] == s,
        !dfa.finals@.contains(s as usize),
{
    let t = dfa.transitions@[s]@[c] as int;
    assert(nfa.step(subsets[s], symbol(c)) =~= Set::<int>::empty());
    assert(subsets[t] == subsets[s]);
    assert(dfa.finals@.contains(s as usize) <==> nfa.meets_finals(subsets[s]));
}

/// Whether a move on `c` leads to `t` from a state below `upto` that is
/// marked in `states`.
pub open spec fn moved_below(nfa: NfaSpec, states: Seq<bool>, c: char, upto: int, t: int) -> bool {
    exists|s: int| 0 <= s < upto && states[s] && #[trigger] nfa.edges.contains((s, c, t))
}

/// Whether `t` is among the first `upto` entries of `targets`.
pub open spec fn listed_below(targets: Seq<usize>, upto: int, t: int) -> bool {
    exists|i: int| 0 <= i < upto && #[trigger] targets[i] == t
}

/// A move from a state below `upto + 1` is a move from a state below `upto`
/// or from `upto` itself.
proof fn lemma_moved_below_next(nfa: NfaSpec, states: Seq<bool>, c: char, upto: int, t: int)
    requires
        0 <= upto < states.len(),
    ensures
        moved_below(nfa, states, c, upto + 1, t) <==> moved_below(nfa, states, c, upto, t) || (
        states[upto] && nfa.edges.contains((upto, c, t))),
{
    if moved_below(nfa, states, c, upto + 1, t) {
        let s = choose|s: int|
            0 <= s < upto + 1 && states[s] && #[trigger] nfa.edges.contains((s, c, t));
        if s < upto {
            assert(moved_below(nfa, states, c, upto, t));
        }
    }
    if moved_below(nfa, states, c, upto, t) {
        let s = choose|s: int|
            0 <= s < upto && states[s] && #[trigger] nfa.edges.contains((s, c, t));
        assert(0 <= s < upto + 1 && states[s] && nfa.edges.contains((s, c, t)));
    }
}

/// Whether `a` and `b` hold the same booleans.
fn same_bits(a: &Vec<bool>, b: &Vec<bool>) -> (res: bool)
    ensures
        res == (a@ == b@),
{
    if a.len() != b.len() {
        return false;
    }
    let mut i: usize = 0;
    while i < a.len()
        invariant
            a@.len() == b@.len(),
            i <= a@.len(),
            forall|k: int| 0 <= k < i ==> a@[k] == b@[k],
        decreases a@.len() - i,
    {
        if a[i] != b[i] {
            return false;
        }
        i += 1;
    }
    assert(a@ =~= b@);
    true
}

/// The sequences of booleans held in `subsets`.
pub open spec fn bit_keys(subsets: Seq<Vec<bool>>) -> Seq<Seq<bool>> {
    Seq::new(subsets.len(), |s: int| subsets[s]@)
}

/// The first place of the set `key` in `subsets`, if it is listed.
fn find_subset(subsets: &Vec<Vec<bool>>, key: &Vec<bool>) -> (res: Option<usize>)
    ensures
        match res {
            Some(j) => j < subsets@.len() && bit_keys(subsets@)[j as int] == key@ && forall|
                s: int,
            | 0 <= s < j ==> #[trigger] bit_keys(subsets@)[s] != key@,
            None => forall|s: int|
                0 <= s < subsets@.len() ==> #[trigger] bit_keys(subsets@)[s] != key@,
        },
{
    let mut j: usize = 0;
    while j < subsets.len()
        invariant
            j <= subsets@.len(),
            forall|s: int| 0 <= s < j ==> #[trigger] bit_keys(subsets@)[s] != key@,
        decreases subsets@.len() - j,
    {
        if same_bits(&subsets[j], key) {
            return Some(j);
        }
        j += 1;
    }
    None
}

impl View for NFA {
    type V = NfaSpec;

    closed spec fn view(&self) -> NfaSpec {
        NfaSpec {
            size: self.transitions@.len() as int,
            initial: self.initial as int,
            finals: state_set(self.finals@),
            edges: edge_set(self.transitions@),
        }
    }
}

impl NFA {
    /// The initial state and the ends of every move are states.
    #[verifier::type_invariant]
    closed spec fn well_formed(self) -> bool {
        self@.wf()
    }

    /// The automaton of the local language `ll`, whose positions carry the
    /// symbols `chars`. It accepts the words that `ll` spells through `chars`.
    pub fn from_local_language(ll: LocalLanguage, chars: Vec<char>) -> (nfa: NFA)
        requires
            ll@.within(0, chars@.len() as int),
        ensures
            nfa@ == glushkov_automaton(ll@, chars@),
            nfa@.wf(),
            forall|w: Seq<char>| #[trigger] nfa@.accepts(w) <==> ll@.recognizes(chars@, w),
    {
        let n = chars.len();
        let mut finals: HashSet<usize> = HashSet::new();
        let mut k: usize = 0;
        while k < ll.suffixes.len()
            invariant
                k <= ll.suffixes@.len(),
                state_set(finals@) == position_set(ll.suffixes@.take(k as int)),
            decreases ll.suffixes@.len() - k,
        {
            let suffix = ll.suffixes[k];
            proof {
                assert(ll.suffixes@.take(k + 1) =~= ll.suffixes@.take(k as int).push(suffix));
                lemma_position_set_push(ll.suffixes@.take(k as int), suffix);
                assert(state_set(finals@.insert(suffix)) =~= state_set(finals@).insert(
                    suffix as int,
                ));
            }
            finals.insert(suffix);
            k += 1;
        }
        let mut transitions: Vec<Vec<(char, usize)>> = Vec::new();
        let mut s: usize = 0;
        while s < n
            invariant
                s <= n,
                transitions@.len() == s,
                forall|i: int| 0 <= i < s ==> (#[trigger] transitions@[i])@.len() == 0,
            decreases n - s,
        {
            transitions.push(Vec::new());
            s += 1;
        }
        transitions.push(Vec::new());
        let initial = n;
        proof {
            assert(edge_set(transitions@) =~= Set::<(int, char, int)>::empty());
            assert(prefix_edges(position_set(ll.prefixes@.take(0)), chars@) =~= Set::<
                (int, char, int),
            >::empty());
        }
        let mut k: usize = 0;
        while k < ll.prefixes.len()
            invariant
                k <= ll.prefixes@.len(),
                n == chars@.len(),
                initial == n,
                transitions@.len() == n + 1,
                ll@.within(0, n as int),
                edge_set(transitions@) == prefix_edges(
                    position_set(ll.prefixes@.take(k as int)),
                    chars@,
                ),
            decreases ll.prefixes@.len() - k,
        {
            let prefix = ll.prefixes[k];
            assert(ll@.prefixes.contains(prefix as int));
            let c = chars[prefix];
            let ghost before = transitions@;
            transitions[initial].push((c, prefix));
            proof {
                lemma_edge_set_push(before, transitions@, initial as int, c, prefix);
                assert(ll.prefixes@.take(k + 1) =~= ll.prefixes@.take(k as int).push(prefix));
                lemma_position_set_push(ll.prefixes@.take(k as int), prefix);
                assert(prefix_edges(position_set(ll.prefixes@.take(k + 1)), chars@)
                    =~= prefix_edges(position_set(ll.prefixes@.take(k as int)), chars@).insert(
                    (initial as int, c, prefix as int),
                ));
            }
            k += 1;
        }
        proof {
            assert(ll.prefixes@.take(ll.prefixes@.len() as int) =~= ll.prefixes@);
            assert(ll.suffixes@.take(ll.suffixes@.len() as int) =~= ll.suffixes@);
        }
        if ll.accept_empty {
            proof {
                assert(state_set(finals@.insert(initial)) =~= state_set(finals@).insert(
                    initial as int,
                ));
            }
            finals.insert(initial);
        }
        proof {
            lemma_position_set_empty();
            assert(factor_edges(factor_set(ll.factors@.take(0)), chars@) =~= Set::<
                (int, char, int),
            >::empty());
            assert(edge_set(transitions@) =~= prefix_edges(ll@.prefixes, chars@) + factor_edges(
                factor_set(ll.factors@.take(0)),
                chars@,
            ));
        }
        let mut k: usize = 0;
        while k < ll.factors.len()
            invariant
                k <= ll.factors@.len(),
                n == chars@.len(),
                transitions@.len() == n + 1,
                ll@.within(0, n as int),
                edge_set(transitions@) == prefix_edges(ll@.prefixes, chars@) + factor_edges(
                    factor_set(ll.factors@.take(k as int)),
                    chars@,
                ),
            decreases ll.factors@.len() - k,
        {
            let a = ll.factors[k].0;
            let b = ll.factors[k].1;
            assert(ll@.factors.contains((a as int, b as int)));
            let c = chars[b];
            let ghost before = transitions@;
            transitions[a].push((c, b));
            proof {
                lemma_edge_set_push(before, transitions@, a as int, c, b);
                assert(ll.factors@.take(k + 1) =~= ll.factors@.take(k as int).push((a, b)));
                lemma_factor_set_push(ll.factors@.take(k as int), (a, b));
                assert(factor_edges(factor_set(ll.factors@.take(k + 1)), chars@) =~= factor_edges(
                    factor_set(ll.factors@.take(k as int)),
                    chars@,
                ).insert((a as int, c, b as int)));
                assert((prefix_edges(ll@.prefixes, chars@) + factor_edges(
                    factor_set(ll.factors@.take(k as int)),
                    chars@,
                )).insert((a as int, c, b as int)) =~= prefix_edges(ll@.prefixes, chars@)
                    + factor_edges(factor_set(ll.factors@.take(k + 1)), chars@));
            }
            k += 1;
        }
        proof {
            assert(ll.factors@.take(ll.factors@.len() as int) =~= ll.factors@);
        }
        let nfa = NFA { initial, finals, transitions };
        proof {
            let g = glushkov_automaton(ll@, chars@);
            assert(nfa@.finals =~= g.finals);
            assert(nfa@.edges == g.edges);
            assert forall|w: Seq<char>| #[trigger] nfa@.accepts(w) <==> ll@.recognizes(
                chars@,
                w,
            ) by {
                theorem_automaton_recognizes(ll@, chars@, w);
            }
        }
        nfa
    }

    /// The states reached from `state` by one move on `c`.
    fn next_states(&self, state: usize, c: char) -> (res: Vec<usize>)
        requires
            state < self@.size,
        ensures
            forall|t: int|
                position_set(res@).contains(t) <==> self@.edges.contains((state as int, c, t)),
    {
        let mut res: Vec<usize> = Vec::new();
        let mut j: usize = 0;
        let ghost row = self.transitions@[state as int]@;
        proof {
            lemma_position_set_empty();
        }
        while j < self.transitions[state].len()
            invariant
                state < self.transitions@.len(),
                row == self.transitions@[state as int]@,
                j <= row.len(),
                forall|t: int|
                    position_set(res@).contains(t) <==> exists|i: int|
                        0 <= i < j && (#[trigger] row[i]).0 == c && row[i].1 == t,
            decreases row.len() - j,
        {
            let symbol_here = self.transitions[state][j].0;
            let target = self.transitions[state][j].1;
            if symbol_here == c {
                proof {
                    lemma_position_set_push(res@, target);
                }
                let ghost before = res@;
                res.push(target);
                proof {
                    assert forall|t: int| position_set(res@).contains(t) <==> exists|i: int|
                        0 <= i < j + 1 && (#[trigger] row[i]).0 == c && row[i].1 == t by {
                        if position_set(res@).contains(t) {
                            if t == target {
                                assert(row[j as int].0 == c && row[j as int].1 == t);
                            } else {
                                assert(position_set(before).contains(t));
                                let i = choose|i: int|
                                    0 <= i < j && (#[trigger] row[i]).0 == c && row[i].1 == t;
                                assert(0 <= i < j + 1 && row[i].0 == c && row[i].1 == t);
                            }
                        }
                        if exists|i: int|
                            0 <= i < j + 1 && (#[trigger] row[i]).0 == c && row[i].1 == t {
                            let i = choose|i: int|
                                0 <= i < j + 1 && (#[trigger] row[i]).0 == c && row[i].1 == t;
                            if i < j {
                                assert(position_set(before).contains(t));
                            }
                        }
                    }
                }
            } else {
                proof {
                    assert forall|t: int| position_set(res@).contains(t) <==> exists|i: int|
                        0 <= i < j + 1 && (#[trigger] row[i]).0 == c && row[i].1 == t by {
                        if position_set(res@).contains(t) {
                            let i = choose|i: int|
                                0 <= i < j && (#[trigger] row[i]).0 == c && row[i].1 == t;
                            assert(0 <= i < j + 1 && row[i].0 == c && row[i].1 == t);
                        }
                        if exists|i: int|
                            0 <= i < j + 1 && (#[trigger] row[i]).0 == c && row[i].1 == t {
                            let i = choose|i: int|
                                0 <= i < j + 1 && (#[trigger] row[i]).0 == c && row[i].1 == t;
                            assert(i < j);
                        }
                    }
                }
            }
            j += 1;
        }
        res
    }

    /// The states reached from a state of `states` by one move on `c`.
    fn next_states_mult(&self, states: &Vec<bool>, c: char) -> (res: Vec<bool>)
        requires
            self@.wf(),
            states@.len() == self@.size,
        ensures
            res@ == set_bits(self@.step(bits_set(states@), c), self@.size),
    {
        let n = self.transitions.len();
        let mut res: Vec<bool> = Vec::new();
        let mut t: usize = 0;
        while t < n
            invariant
                t <= n,
                res@.len() == t,
                forall|i: int| 0 <= i < t ==> !res@[i],
            decreases n - t,
        {
            res.push(false);
            t += 1;
        }
        let mut state: usize = 0;
        while state < n
            invariant
                self@.wf(),
                n == self@.size,
                states@.len() == n,
                res@.len() == n,
                state <= n,
                forall|t: int|
                    0 <= t < n ==> #[trigger] res@[t] == moved_below(
                        self@,
                        states@,
                        c,
                        state as int,
                        t,
                    ),
            decreases n - state,
        {
            let ghost before = res@;
            if states[state] {
                let targets = self.next_states(state, c);
                let mut k: usize = 0;
                while k < targets.len()
                    invariant
                        self@.wf(),
                        n == self@.size,
                        res@.len() == n,
                        before.len() == n,
                        state < n,
                        k <= targets@.len(),
                        forall|t: int|
                            position_set(targets@).contains(t) <==> self@.edges.contains(
                                (state as int, c, t),
                            ),
                        forall|t: int|
                            0 <= t < n ==> #[trigger] res@[t] == (before[t] || listed_below(
                                targets@,
                                k as int,
                                t,
                            )),
                    decreases targets@.len() - k,
                {
                    let target = targets[k];
                    assert(position_set(targets@).contains(target as int));
                    assert(self@.edges.contains((state as int, c, target as int)));
                    let ghost previous = res@;
                    res.set(target, true);
                    proof {
                        assert forall|t: int| 0 <= t < n implies #[trigger] res@[t] == (before[t]
                            || listed_below(targets@, k + 1, t)) by {
                            if t == target {
                                assert(targets@[k as int] == t);
                            } else {
                                assert(res@[t] == previous[t]);
                                if listed_below(targets@, k + 1, t) {
                                    let i = choose|i: int|
                                        0 <= i < k + 1 && #[trigger] targets@[i] == t;
                                    assert(i < k);
                                }
                                if listed_below(targets@, k as int, t) {
                                    let i = choose|i: int|
                                        0 <= i < k && #[trigger] targets@[i] == t;
                                    assert(0 <= i < k + 1 && targets@[i] == t);
                                }
                            }
                        }
                    }
                    k += 1;
                }
                proof {
                    assert forall|t: int| 0 <= t < n implies (listed_below(
                        targets@,
                        targets@.len() as int,
                        t,
                    ) <==> self@.edges.contains((state as int, c, t))) by {
                        assert(position_set(targets@).contains(t) <==> self@.edges.contains(
                            (state as int, c, t),
                        ));
                        if listed_below(targets@, targets@.len() as int, t) {
                            let i = choose|i: int|
                                0 <= i < targets@.len() && #[trigger] targets@[i] == t;
                            assert(position_set(targets@).contains(t));
                        }
                        if position_set(targets@).contains(t) {
                            let i = choose|i: int|
                                0 <= i < targets@.len() && #[trigger] targets@[i] == t;
                            assert(listed_below(targets@, targets@.len() as int, t));
                        }
                    }
                }
            }
            proof {
                assert forall|t: int| 0 <= t < n implies #[trigger] res@[t] == moved_below(
                    self@,
                    states@,
                    c,
                    state + 1,
                    t,
                ) by {
                    lemma_moved_below_next(self@, states@, c, state as int, t);
                    assert(before[t] == moved_below(self@, states@, c, state as int, t));
                }
            }
            state += 1;
        }
        proof {
            let reached = self@.step(bits_set(states@), c);
            let goal = set_bits(reached, self@.size);
            assert forall|t: int| 0 <= t < n implies res@[t] == goal[t] by {
                if moved_below(self@, states@, c, n as int, t) {
                    let s = choose|s: int|
                        0 <= s < n && states@[s] && #[trigger] self@.edges.contains((s, c, t));
                    assert(bits_set(states@).contains(s));
                    assert(reached.contains(t));
                }
                if reached.contains(t) {
                    let s = choose|s: int|
                        bits_set(states@).contains(s) && #[trigger] self@.edges.contains((s, c, t));
                    assert(0 <= s < n && states@[s] && self@.edges.contains((s, c, t)));
                }
            }
            assert(res@ =~= goal);
        }
        res
    }

    /// Whether `states` holds a final state.
    fn meets_finals(&self, states: &Vec<bool>) -> (res: bool)
        ensures
            res == self@.meets_finals(bits_set(states@)),
    {
        let mut s: usize = 0;
        while s < states.len()
            invariant
                s <= states@.len(),
                forall|q: int| 0 <= q < s ==> !(states@[q] && self.finals@.contains(q as usize)),
            decreases states@.len() - s,
        {
            if states[s] && self.finals.contains(&s) {
                assert(bits_set(states@).contains(s as int) && self@.finals.contains(s as int));
                return true;
            }
            s += 1;
        }
        proof {
            if self@.meets_finals(bits_set(states@)) {
                let q = choose|q: int| #[trigger]
                    bits_set(states@).contains(q) && self@.finals.contains(q);
                assert(!(states@[q] && self.finals@.contains(q as usize)));
            }
        }
        false
    }

    /// The set that holds the initial state alone.
    fn initial_states(&self) -> (res: Vec<bool>)
        requires
            self@.wf(),
        ensures
            res@ == set_bits(set![self@.initial], self@.size),
    {
        let n = self.transitions.len();
        let mut res: Vec<bool> = Vec::new();
        let mut t: usize = 0;
        while t < n
            invariant
                t <= n,
                res@.len() == t,
                forall|i: int| 0 <= i < t ==> !res@[i],
            decreases n - t,
        {
            res.push(false);
            t += 1;
        }
        res.set(self.initial, true);
        assert(res@ =~= set_bits(set![self@.initial], self@.size));
        res
    }

    /// The deterministic automaton that accepts the words over the alphabet
    /// that `self` accepts, by the subset construction restricted to the sets
    /// of states that some word reaches. States are numbered in the order in
    /// which their sets are found, the set of the initial state being state 0.
    pub fn determinize(self) -> (dfa: DFA)
        ensures
            dfa.wf(),
            dfa.initial == 0,
            exists|keys: Seq<Seq<bool>>|
                is_subset_construction(&dfa, self@, key_sets(keys)) && in_discovery_order(
                    subset_system(self@),
                    keys,
                ),
            dfa.all_reachable(),
            dfa.states_count <= pow2(self@.size as nat),
            forall|w: Seq<char>| #[trigger] dfa.accepts(w) <==> is_word(w) && self@.accepts(w),
    {
        let mut finals: HashSet<usize> = HashSet::new();
        let mut transitions: Vec<[usize; 26]> = Vec::new();
        let mut stack: Vec<usize> = Vec::new();
        let mut subsets: Vec<Vec<bool>> = Vec::new();
        let blank: [usize; 26] = [0; 26];
        let ghost sys = subset_system(self@);
        let ghost bound = pow2(self@.size as nat);
        let ghost mut words: Seq<Seq<char>> = seq![Seq::<char>::empty()];
        let ghost mut expanded: nat = 0;
        proof {
            use_type_invariant(&self);
        }

        let initial_states = self.initial_states();
        if self.meets_finals(&initial_states) {
            finals.insert(0);
        }
        subsets.push(initial_states);
        stack.push(0);
        transitions.push(blank);
        proof {
            lemma_exploring_start(sys, blank);
            assert(bit_keys(subsets@) =~= seq![sys.start]);
            assert(transitions@ =~= seq![blank]);
            assert(stack@ =~= seq![0usize]);
            assert(finals@ =~= if (sys.is_final)(sys.start) {
                set![0usize]
            } else {
                Set::<usize>::empty()
            });
            lemma_subset_bound(self@, bit_keys(subsets@), words);
        }

        while stack.len() > 0
            invariant
                self@.wf(),
                sys == subset_system(self@),
                exploring(sys, bit_keys(subsets@), transitions@, finals@, stack@, words, -1),
                explored(sys, expanded) == (bit_keys(subsets@), stack@),
                subsets@.len() <= bound,
                bound == pow2(self@.size as nat),
            decreases bound - subsets@.len(), stack@.len(),
        {
            let ghost count_before = subsets@.len();
            let ghost stack_before = stack@.len();
            let ghost keys_at_pop = bit_keys(subsets@);
            let ghost rest = stack@.drop_last();
            proof {
                lemma_exploring_pop(
                    sys,
                    bit_keys(subsets@),
                    transitions@,
                    finals@,
                    stack@,
                    words,
                );
            }
            let id = stack.pop().unwrap();
            let mut row: [usize; 26] = blank;
            let mut i: usize = 0;
            proof {
                assert(stack@ =~= rest + new_states(subsets@.len() as int, subsets@.len() as int));
            }
            while i < 26
                invariant
                    self@.wf(),
                    sys == subset_system(self@),
                    i <= 26,
                    id < subsets@.len(),
                    exploring(
                        sys,
                        bit_keys(subsets@),
                        transitions@,
                        finals@,
                        stack@,
                        words,
                        id as int,
                    ),
                    row_follows(sys, bit_keys(subsets@), row, id as int, i as int),
                    id < keys_at_pop.len(),
                    keys_at_pop[id as int] == bit_keys(subsets@)[id as int],
                    keys_at_pop.len() <= subsets@.len(),
                    bit_keys(subsets@) == expand(sys, keys_at_pop, id as int, i as int),
                    stack@ == rest + new_states(keys_at_pop.len() as int, subsets@.len() as int),
                    subsets@.len() <= bound,
                    bound == pow2(self@.size as nat),
                    subsets@.len() > count_before || (subsets@.len() == count_before && stack@.len()
                        == stack_before - 1),
                decreases 26 - i,
            {
                let c = letter(i);
                proof {
                    lemma_subset_bound(self@, bit_keys(subsets@), words);
                    assert(bit_keys(subsets@)[id as int] == subsets@[id as int]@);
                }
                let next_states = self.next_states_mult(&subsets[id], c);
                let next_id = match find_subset(&subsets, &next_states) {
                    Some(j) => {
                        proof {
                            lemma_expand_known(
                                sys,
                                keys_at_pop,
                                bit_keys(subsets@),
                                id as int,
                                i as int,
                                j as int,
                            );
                        }
                        j
                    },
                    None => {
                        let j = subsets.len();
                        let ghost keys_before = bit_keys(subsets@);
                        proof {
                            lemma_expand_new(
                                sys,
                                keys_at_pop,
                                keys_before,
                                rest,
                                id as int,
                                i as int,
                                j,
                            );
                            lemma_exploring_discover(
                                sys,
                                keys_before,
                                transitions@,
                                finals@,
                                stack@,
                                words,
                                id as int,
                                i as int,
                                blank,
                                j,
                            );
                            lemma_row_follows_push(
                                sys,
                                keys_before,
                                row,
                                id as int,
                                i as int,
                                next_states@,
                            );
                            words = words.push(words[id as int].push(symbol(i as int)));
                        }
                        if self.meets_finals(&next_states) {
                            finals.insert(j);
                        }
                        transitions.push(blank);
                        subsets.push(next_states);
                        stack.push(j);
                        proof {
                            assert(bit_keys(subsets@) =~= keys_before.push(next_states@));
                            lemma_subset_bound(self@, bit_keys(subsets@), words);
                        }
                        j
                    },
                };
                let ghost row_before = row;
                row[i] = next_id;
                proof {
                    lemma_row_follows_next(
                        sys,
                        bit_keys(subsets@),
                        row_before,
                        row,
                        id as int,
                        i as int,
                    );
                }
                i += 1;
            }
            proof {
                lemma_exploring_write(
                    sys,
                    bit_keys(subsets@),
                    transitions@,
                    finals@,
                    stack@,
                    words,
                    id as int,
                    row,
                );
            }
            transitions.set(id, row);
            proof {
                expanded = expanded + 1;
            }
        }
        let dfa = DFA { states_count: subsets.len(), initial: 0, finals, transitions };
        proof {
            let keys = bit_keys(subsets@);
            assert(stack@ =~= Seq::<usize>::empty());
            lemma_exploring_finished(&dfa, sys, keys, words);
            lemma_presents_subsets(&dfa, self@, keys, words);
            assert(explored(sys, expanded) == (keys, Seq::<usize>::empty()));
            assert(is_subset_construction(&dfa, self@, key_sets(keys)) && in_discovery_order(
                subset_system(self@),
                keys,
            ));
            assert forall|w: Seq<char>| #[trigger]
                dfa.accepts(w) <==> is_word(w) && self@.accepts(w) by {
                lemma_presents_language(&dfa, sys, keys, w);
                if is_word(w) {
                    lemma_subset_after(self@, w);
                }
            }
        }
        dfa
    }
}

impl Clone for NFA {
    fn clone(&self) -> (res: Self)
        ensures
            res@ == self@,
    {
        proof {
            use_type_invariant(self);
        }
        let mut transitions: Vec<Vec<(char, usize)>> = Vec::new();
        let mut s: usize = 0;
        while s < self.transitions.len()
            invariant
                s <= self.transitions@.len(),
                transitions@.len() == s,
                forall|i: int|
                    0 <= i < s ==> (#[trigger] transitions@[i])@ == self.transitions@[i]@,
            decreases self.transitions@.len() - s,
        {
            let mut row: Vec<(char, usize)> = Vec::new();
            let mut j: usize = 0;
            while j < self.transitions[s].len()
                invariant
                    s < self.transitions@.len(),
                    j <= self.transitions@[s as int]@.len(),
                    row@ == self.transitions@[s as int]@.take(j as int),
                decreases self.transitions@[s as int]@.len() - j,
            {
                row.push(self.transitions[s][j]);
                assert(row@ =~= self.transitions@[s as int]@.take(j + 1));
                j += 1;
            }
            assert(row@ =~= self.transitions@[s as int]@);
            transitions.push(row);
            s += 1;
        }
        let finals = copy_states(&self.finals);
        proof {
            assert forall|e: (int, char, int)|
                edge_set(transitions@).contains(e) <==> edge_set(self.transitions@).contains(e) by {
                if 0 <= e.0 < transitions@.len() {
                    assert(transitions@[e.0]@ == self.transitions@[e.0]@);
                }
            }
            assert(edge_set(transitions@) =~= edge_set(self.transitions@));
        }
        NFA { initial: self.initial, finals, transitions }
    }
}

} // verus!
