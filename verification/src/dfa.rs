//! Complete deterministic automata over the alphabet, and their algebra:
//! complement, product, inclusion and equality of languages.
use vstd::prelude::*;
use std::collections::HashSet;
use crate::alphabet::{is_word, rank, is_symbol, symbol};
use crate::counting::lemma_distinct_pairs;
use crate::exploration::{
    System, presents, exploring, row_follows, distinct, lemma_exploring_start, lemma_exploring_pop,
    lemma_exploring_discover, lemma_exploring_write, lemma_exploring_finished,
    lemma_presents_language, lemma_presents_run, lemma_row_follows_next, lemma_row_follows_push,
    in_discovery_order, explored, expand, new_states, lemma_expand_known, lemma_expand_new,
};
use vstd::set_lib::{set_int_range, lemma_int_range, lemma_set_subset_finite};

verus! {

broadcast use vstd::std_specs::hash::group_hash_axioms;

/// A deterministic finite automaton whose states are `0..states_count` and
/// whose transition table gives, for every state, the state reached on each
/// of the 26 symbols.
#[derive(Debug)]
pub struct DFA {
    pub states_count: usize,
    pub initial: usize,
    pub finals: HashSet<usize>,
    pub transitions: Vec<[usize; 26]>,
}

/// A set that holds the same states as `states`.
pub(crate) fn copy_states(states: &HashSet<usize>) -> (res: HashSet<usize>)
    ensures
        res@ == states@,
{
    let mut res: HashSet<usize> = HashSet::new();
    for state in iter: states.iter()
        invariant
            iter.seq().unref().to_set() == states@,
            forall|q: usize|
                res@.contains(q) <==> exists|i: int|
                    0 <= i < iter.index() && #[trigger] iter.seq().unref()[i] == q,
    {
        res.insert(*state);
    }
    assert(res@ =~= states@);
    res
}

/// Every entry of the table `rows` names one of its rows.
pub open spec fn closed_table(rows: Seq<[usize; 26]>) -> bool {
    forall|s: int, i: int|
        0 <= s < rows.len() && 0 <= i < 26 ==> (#[trigger] rows[s]@[i]) < rows.len()
}

/// The state reached from state `s` by reading the word `w` in the table `rows`.
pub open spec fn run_table(rows: Seq<[usize; 26]>, s: int, w: Seq<char>) -> int
    decreases w.len(),
{
    if w.len() == 0 {
        s
    } else {
        rows[run_table(rows, s, w.drop_last())]@[rank(w.last())] as int
    }
}

/// Reading a word in a closed table never leaves the table.
pub proof fn lemma_run_table_in_range(rows: Seq<[usize; 26]>, s: int, w: Seq<char>)
    requires
        closed_table(rows),
        0 <= s < rows.len(),
        is_word(w),
    ensures
        0 <= run_table(rows, s, w) < rows.len(),
    decreases w.len(),
{
    if w.len() > 0 {
        lemma_run_table_in_range(rows, s, w.drop_last());
        assert(is_symbol(w[w.len() - 1]));
    }
}

/// The states below `n` that are not in `finals`.
pub open spec fn complement_set(finals: Set<usize>, n: usize) -> Set<usize> {
    Set::new(|q: usize| q < n && !finals.contains(q))
}

/// Complementing a complete automaton twice gives back its final states.
pub proof fn lemma_complement_involution(dfa: &DFA)
    requires
        dfa.wf(),
    ensures
        complement_set(complement_set(dfa.finals@, dfa.states_count), dfa.states_count)
            == dfa.finals@,
{
    assert(complement_set(complement_set(dfa.finals@, dfa.states_count), dfa.states_count)
        =~= dfa.finals@);
}

/// A set of states below `n` is finite.
pub proof fn lemma_states_finite(states: Set<usize>, n: usize)
    requires
        forall|q: usize| states.contains(q) ==> q < n,
    ensures
        states.finite(),
{
    let to_state = |i: int| i as usize;
    let all = set_int_range(0, n as int).map(to_state);
    lemma_int_range(0, n as int);
    set_int_range(0, n as int).lemma_map_finite(to_state);
    assert forall|q: usize| states.contains(q) implies all.contains(q) by {
        assert(set_int_range(0, n as int).contains(q as int));
        assert(to_state(q as int) == q);
    }
    lemma_set_subset_finite(all, states);
}

/// The pair of states that follows the pair `p` on the symbol of rank `c`.
pub open spec fn product_step(a: &DFA, b: &DFA, p: (usize, usize), c: int) -> (usize, usize) {
    (a.transitions@[p.0 as int]@[c], b.transitions@[p.1 as int]@[c])
}

/// For each symbol of rank below `upto`, `row` names the place in `pairs` of
/// the pair that follows `pairs[s]` on that symbol.
pub open spec fn product_row(
    a: &DFA,
    b: &DFA,
    pairs: Seq<(usize, usize)>,
    row: [usize; 26],
    s: int,
    upto: int,
) -> bool {
    forall|c: int|
        0 <= c < upto ==> (#[trigger] row@[c]) < pairs.len() && pairs[row@[c] as int]
            == product_step(a, b, pairs[s], c)
}

/// `res` is the product of `a` and `b` restricted to the pairs listed in
/// `pairs`: state `s` of `res` stands for `pairs[s]`, no pair is listed
/// twice, the initial state stands for the pair of the initial states,
/// transitions go componentwise, and a state is final exactly when both
/// components are.
pub open spec fn is_product(res: &DFA, a: &DFA, b: &DFA, pairs: Seq<(usize, usize)>) -> bool {
    &&& pairs.len() == res.states_count
    &&& pairs[res.initial as int] == (a.initial, b.initial)
    &&& forall|s: int|
        0 <= s < pairs.len() ==> (#[trigger] pairs[s]).0 < a.states_count && pairs[s].1
            < b.states_count
    &&& forall|s: int, t: int|
        0 <= s < pairs.len() && 0 <= t < pairs.len() && s != t ==> pairs[s] != pairs[t]
    &&& forall|s: int|
        0 <= s < pairs.len() ==> product_row(a, b, pairs, #[trigger] res.transitions@[s], s, 26)
    &&& forall|q: usize|
        q < pairs.len() ==> (#[trigger] res.finals@.contains(q) <==> a.finals@.contains(
            pairs[q as int].0,
        ) && b.finals@.contains(pairs[q as int].1))
}

/// The product of `a` and `b` as a system over pairs of states.
pub open spec fn product_system(a: &DFA, b: &DFA) -> System<(usize, usize)> {
    System {
        start: (a.initial, b.initial),
        next: |p: (usize, usize), c: int| product_step(a, b, p, c),
        is_final: |p: (usize, usize)| a.finals@.contains(p.0) && b.finals@.contains(p.1),
    }
}

/// The product system goes through the pairs of states that the two automata
/// go through.
pub proof fn lemma_product_after(a: &DFA, b: &DFA, w: Seq<char>)
    requires
        a.wf(),
        b.wf(),
        is_word(w),
    ensures
        product_system(a, b).after(w).0 == a.run(w),
        product_system(a, b).after(w).1 == b.run(w),
        a.run(w) < a.states_count,
        b.run(w) < b.states_count,
    decreases w.len(),
{
    lemma_run_table_in_range(a.transitions@, a.initial as int, w);
    lemma_run_table_in_range(b.transitions@, b.initial as int, w);
    if w.len() > 0 {
        lemma_product_after(a, b, w.drop_last());
    }
}

/// An automaton that presents the product system, with each key reached by
/// some word, is a product.
proof fn lemma_presents_product(
    res: &DFA,
    a: &DFA,
    b: &DFA,
    pairs: Seq<(usize, usize)>,
    words: Seq<Seq<char>>,
)
    requires
        a.wf(),
        b.wf(),
        presents(res, product_system(a, b), pairs),
        words.len() == pairs.len(),
        forall|s: int|
            0 <= s < pairs.len() ==> is_word(#[trigger] words[s]) && product_system(a, b).after(
                words[s],
            ) == pairs[s],
    ensures
        is_product(res, a, b, pairs),
{
    let sys = product_system(a, b);
    assert forall|s: int| 0 <= s < pairs.len() implies (#[trigger] pairs[s]).0 < a.states_count
        && pairs[s].1 < b.states_count by {
        lemma_product_after(a, b, words[s]);
    }
    assert forall|s: int| 0 <= s < pairs.len() implies product_row(
        a,
        b,
        pairs,
        #[trigger] res.transitions@[s],
        s,
        26,
    ) by {
        assert(row_follows(sys, pairs, res.transitions@[s], s, 26));
    }
}

/// In a product, reading a word leads to the state that stands for the pair
/// of the states that the two automata reach, and that state is final
/// exactly when both of these are.
pub proof fn lemma_product_run(
    res: &DFA,
    a: &DFA,
    b: &DFA,
    pairs: Seq<(usize, usize)>,
    w: Seq<char>,
)
    requires
        res.wf(),
        a.wf(),
        b.wf(),
        is_product(res, a, b, pairs),
        is_word(w),
    ensures
        0 <= res.run(w) < pairs.len(),
        pairs[res.run(w)].0 == a.run(w),
        pairs[res.run(w)].1 == b.run(w),
        res.finals@.contains(res.run(w) as usize) <==> a.finals@.contains(a.run(w) as usize)
            && b.finals@.contains(b.run(w) as usize),
{
    let sys = product_system(a, b);
    assert forall|s: int| 0 <= s < pairs.len() implies row_follows(
        sys,
        pairs,
        #[trigger] res.transitions@[s],
        s,
        26,
    ) by {
        assert(product_row(a, b, pairs, res.transitions@[s], s, 26));
    }
    assert(presents(res, sys, pairs));
    lemma_presents_run(res, sys, pairs, w);
    lemma_product_after(a, b, w);
    let q = res.run(w) as usize;
    assert(res.finals@.contains(q) <==> a.finals@.contains(pairs[q as int].0) && b.finals@.contains(
        pairs[q as int].1,
    ));
}

/// The pairs found while exploring a product are no more than the pairs of
/// states of the two automata.
proof fn lemma_product_bound(a: &DFA, b: &DFA, pairs: Seq<(usize, usize)>, words: Seq<Seq<char>>)
    requires
        a.wf(),
        b.wf(),
        words.len() == pairs.len(),
        distinct(pairs),
        forall|s: int|
            0 <= s < pairs.len() ==> is_word(#[trigger] words[s]) && product_system(a, b).after(
                words[s],
            ) == pairs[s],
    ensures
        pairs.len() <= a.states_count * b.states_count,
{
    assert forall|s: int| 0 <= s < pairs.len() implies (#[trigger] pairs[s]).0 < a.states_count
        && pairs[s].1 < b.states_count by {
        lemma_product_after(a, b, words[s]);
    }
    lemma_distinct_pairs(pairs, a.states_count as int, b.states_count as int);
}

/// The first place of the pair `(x, y)` in `pairs`, if it is listed.
fn find_pair(pairs: &Vec<(usize, usize)>, x: usize, y: usize) -> (res: Option<usize>)
    ensures
        match res {
            Some(j) => j < pairs@.len() && pairs@[j as int] == (x, y) && forall|s: int|
                0 <= s < j ==> #[trigger] pairs@[s] != (x, y),
            None => forall|s: int| 0 <= s < pairs@.len() ==> #[trigger] pairs@[s] != (x, y),
        },
{
    let mut j: usize = 0;
    while j < pairs.len()
        invariant
            j <= pairs@.len(),
            forall|s: int| 0 <= s < j ==> #[trigger] pairs@[s] != (x, y),
        decreases pairs@.len() - j,
    {
        let p = pairs[j];
        if p.0 == x && p.1 == y {
            return Some(j);
        }
        j += 1;
    }
    None
}

impl DFA {
    /// The automaton is complete and mentions no state beyond `states_count`.
    pub open spec fn wf(&self) -> bool {
        &&& self.states_count == self.transitions@.len()
        &&& self.initial < self.states_count
        &&& closed_table(self.transitions@)
        &&& forall|q: usize| self.finals@.contains(q) ==> q < self.states_count
    }

    /// The state reached from the initial state by reading `w`.
    pub open spec fn run(&self, w: Seq<char>) -> int {
        run_table(self.transitions@, self.initial as int, w)
    }

    /// Whether the automaton accepts `w`: `w` is a word over the alphabet and
    /// reading it from the initial state ends in a final state.
    pub open spec fn accepts(&self, w: Seq<char>) -> bool {
        is_word(w) && self.finals@.contains(self.run(w) as usize)
    }

    /// Some word leads from the initial state to state `q`.
    pub open spec fn reachable(&self, q: int) -> bool {
        exists|w: Seq<char>| is_word(w) && #[trigger] self.run(w) == q
    }

    /// Every state is reached by some word.
    pub open spec fn all_reachable(&self) -> bool {
        forall|q: int| 0 <= q < self.states_count ==> #[trigger] self.reachable(q)
    }

    /// Turns the automaton into one that accepts exactly the words over the
    /// alphabet that it did not accept: the final states become the states
    /// that were not final.
    pub fn to_complement(&mut self)
        ensures
            final(self).states_count == old(self).states_count,
            final(self).initial == old(self).initial,
            final(self).transitions == old(self).transitions,
            final(self).finals@ == complement_set(old(self).finals@, old(self).states_count),
            old(self).wf() ==> final(self).wf(),
            old(self).wf() ==> forall|w: Seq<char>|
                is_word(w) ==> (#[trigger] final(self).accepts(w) <==> !old(self).accepts(w)),
    {
        let mut new_finals: HashSet<usize> = HashSet::new();
        let mut i: usize = 0;
        while i < self.states_count
            invariant
                i <= self.states_count,
                new_finals@ == complement_set(self.finals@, i),
            decreases self.states_count - i,
        {
            if !self.finals.contains(&i) {
                new_finals.insert(i);
            }
            assert(new_finals@ =~= complement_set(self.finals@, (i + 1) as usize));
            i += 1;
        }
        self.finals = new_finals;
        proof {
            if old(self).wf() {
                assert forall|w: Seq<char>| is_word(w) implies (#[trigger] self.accepts(w)
                    <==> !old(self).accepts(w)) by {
                    lemma_run_table_in_range(self.transitions@, self.initial as int, w);
                }
            }
        }
    }

    /// The automaton of the words accepted by both `self` and `other`: the
    /// product of the two automata, restricted to the pairs of states that
    /// some word reaches. States are numbered in the order in which their
    /// pairs are found, the pair of the initial states being state 0.
    pub fn intersection(&self, other: &DFA) -> (res: DFA)
        requires
            self.wf(),
            other.wf(),
        ensures
            res.wf(),
            res.initial == 0,
            exists|pairs: Seq<(usize, usize)>|
                is_product(&res, self, other, pairs) && in_discovery_order(
                    product_system(self, other),
                    pairs,
                ),
            res.all_reachable(),
            res.states_count <= self.states_count * other.states_count,
            forall|w: Seq<char>| #[trigger] res.accepts(w) <==> self.accepts(w) && other.accepts(w),
    {
        let mut finals: HashSet<usize> = HashSet::new();
        let mut transitions: Vec<[usize; 26]> = Vec::new();
        let mut stack: Vec<usize> = Vec::new();
        let mut pairs: Vec<(usize, usize)> = Vec::new();
        let blank: [usize; 26] = [0; 26];
        let ghost sys = product_system(self, other);
        let ghost bound = self.states_count * other.states_count;
        let ghost mut words: Seq<Seq<char>> = seq![Seq::<char>::empty()];
        let ghost mut expanded: nat = 0;

        pairs.push((self.initial, other.initial));
        if self.finals.contains(&self.initial) && other.finals.contains(&other.initial) {
            finals.insert(0);
        }
        stack.push(0);
        transitions.push(blank);
        proof {
            lemma_exploring_start(sys, blank);
            assert(pairs@ =~= seq![sys.start]);
            assert(transitions@ =~= seq![blank]);
            assert(stack@ =~= seq![0usize]);
            assert(finals@ =~= if (sys.is_final)(sys.start) {
                set![0usize]
            } else {
                Set::<usize>::empty()
            });
            lemma_product_bound(self, other, pairs@, words);
        }

        while stack.len() > 0
            invariant
                self.wf(),
                other.wf(),
                sys == product_system(self, other),
                exploring(sys, pairs@, transitions@, finals@, stack@, words, -1),
                explored(sys, expanded) == (pairs@, stack@),
                pairs@.len() <= bound,
                bound == self.states_count * other.states_count,
            decreases bound - pairs@.len(), stack@.len(),
        {
            let ghost count_before = pairs@.len();
            let ghost stack_before = stack@.len();
            let ghost pairs_before = pairs@;
            let ghost rest = stack@.drop_last();
            proof {
                lemma_exploring_pop(sys, pairs@, transitions@, finals@, stack@, words);
            }
            let id = stack.pop().unwrap();
            proof {
                lemma_product_after(self, other, words[id as int]);
            }
            let x = pairs[id].0;
            let y = pairs[id].1;
            let mut row: [usize; 26] = blank;
            let mut i: usize = 0;
            proof {
                assert(stack@ =~= rest + new_states(pairs@.len() as int, pairs@.len() as int));
            }
            while i < 26
                invariant
                    self.wf(),
                    other.wf(),
                    sys == product_system(self, other),
                    i <= 26,
                    id < pairs@.len(),
                    pairs@[id as int] == (x, y),
                    x < self.states_count,
                    y < other.states_count,
                    exploring(sys, pairs@, transitions@, finals@, stack@, words, id as int),
                    row_follows(sys, pairs@, row, id as int, i as int),
                    id < pairs_before.len(),
                    pairs_before[id as int] == pairs@[id as int],
                    pairs_before.len() <= pairs@.len(),
                    pairs@ == expand(sys, pairs_before, id as int, i as int),
                    stack@ == rest + new_states(pairs_before.len() as int, pairs@.len() as int),
                    pairs@.len() <= bound,
                    bound == self.states_count * other.states_count,
                    pairs@.len() > count_before || (pairs@.len() == count_before && stack@.len()
                        == stack_before - 1),
                decreases 26 - i,
            {
                let next_x = self.transitions[x][i];
                let next_y = other.transitions[y][i];
                let next_index = match find_pair(&pairs, next_x, next_y) {
                    Some(j) => {
                        proof {
                            lemma_expand_known(
                                sys,
                                pairs_before,
                                pairs@,
                                id as int,
                                i as int,
                                j as int,
                            );
                        }
                        j
                    },
                    None => {
                        let j = pairs.len();
                        proof {
                            lemma_expand_new(
                                sys,
                                pairs_before,
                                pairs@,
                                rest,
                                id as int,
                                i as int,
                                j,
                            );
                            lemma_exploring_discover(
                                sys,
                                pairs@,
                                transitions@,
                                finals@,
                                stack@,
                                words,
                                id as int,
                                i as int,
                                blank,
                                j,
                            );
                            lemma_row_follows_push(
                                sys,
                                pairs@,
                                row,
                                id as int,
                                i as int,
                                (next_x, next_y),
                            );
                            words = words.push(words[id as int].push(symbol(i as int)));
                        }
                        pairs.push((next_x, next_y));
                        stack.push(j);
                        if self.finals.contains(&next_x) && other.finals.contains(&next_y) {
                            finals.insert(j);
                        }
                        transitions.push(blank);
                        proof {
                            lemma_product_bound(self, other, pairs@, words);
                        }
                        j
                    },
                };
                let ghost row_before = row;
                row[i] = next_index;
                proof {
                    lemma_row_follows_next(sys, pairs@, row_before, row, id as int, i as int);
                }
                i += 1;
            }
            proof {
                lemma_exploring_write(
                    sys,
                    pairs@,
                    transitions@,
                    finals@,
                    stack@,
                    words,
                    id as int,
                    row,
                );
            }
            transitions.set(id, row);
            proof {
                expanded = expanded + 1;
            }
        }
        let res = DFA { states_count: pairs.len(), initial: 0, finals, transitions };
        proof {
            assert(stack@ =~= Seq::<usize>::empty());
            lemma_exploring_finished(&res, sys, pairs@, words);
            lemma_presents_product(&res, self, other, pairs@, words);
            assert forall|w: Seq<char>| #[trigger]
                res.accepts(w) <==> self.accepts(w) && other.accepts(w) by {
                lemma_presents_language(&res, sys, pairs@, w);
                if is_word(w) {
                    lemma_product_after(self, other, w);
                }
            }
        }
        res
    }

    /// Whether every word accepted by `self` is accepted by `other`.
    pub fn is_included_in(&self, other: DFA) -> (res: bool)
        requires
            self.wf(),
            other.wf(),
        ensures
            res <==> forall|w: Seq<char>| #[trigger] self.accepts(w) ==> other.accepts(w),
    {
        let mut complement = other;
        complement.to_complement();
        let inter = self.intersection(&complement);
        let res = inter.finals.len() == 0;
        proof {
            lemma_states_finite(inter.finals@, inter.states_count);
            if res {
                assert(inter.finals@ =~= Set::<usize>::empty());
                assert forall|w: Seq<char>| #[trigger] self.accepts(w) implies other.accepts(w) by {
                    assert(!inter.accepts(w));
                    assert(complement.accepts(w) <==> !other.accepts(w));
                }
            } else {
                assert(inter.finals@.len() != 0);
                let q = inter.finals@.choose();
                assert(inter.finals@.contains(q));
                assert(inter.reachable(q as int));
                let w = choose|w: Seq<char>| is_word(w) && #[trigger] inter.run(w) == q as int;
                assert(inter.accepts(w));
                assert(complement.accepts(w) <==> !other.accepts(w));
                assert(self.accepts(w) && !other.accepts(w));
            }
        }
        res
    }

    /// Whether `a` and `b` accept the same words.
    pub fn equals(a: DFA, b: DFA) -> (res: bool)
        requires
            a.wf(),
            b.wf(),
        ensures
            res <==> forall|w: Seq<char>| #[trigger] a.accepts(w) <==> b.accepts(w),
    {
        let copy = b.clone();
        let res = a.is_included_in(copy) && b.is_included_in(a);
        proof {
            assert(forall|w: Seq<char>| #[trigger] copy.accepts(w) <==> b.accepts(w));
            if res {
                assert forall|w: Seq<char>| #[trigger] a.accepts(w) <==> b.accepts(w) by {
                    assert(a.accepts(w) ==> copy.accepts(w));
                    assert(b.accepts(w) ==> a.accepts(w));
                }
            } else if !(forall|w: Seq<char>| #[trigger] a.accepts(w) ==> copy.accepts(w)) {
                let w = choose|w: Seq<char>| !(#[trigger] a.accepts(w) ==> copy.accepts(w));
                assert(!(a.accepts(w) <==> b.accepts(w)));
            } else {
                let w = choose|w: Seq<char>| !(#[trigger] b.accepts(w) ==> a.accepts(w));
                assert(!(a.accepts(w) <==> b.accepts(w)));
            }
        }
        res
    }
}

impl Clone for DFA {
    fn clone(&self) -> (res: Self)
        ensures
            res.states_count == self.states_count,
            res.initial == self.initial,
            res.finals@ == self.finals@,
            res.transitions@ == self.transitions@,
    {
        let mut transitions: Vec<[usize; 26]> = Vec::new();
        let mut i: usize = 0;
        while i < self.transitions.len()
            invariant
                i <= self.transitions.len(),
                transitions@ == self.transitions@.take(i as int),
            decreases self.transitions.len() - i,
        {
            transitions.push(self.transitions[i]);
            assert(transitions@ =~= self.transitions@.take(i + 1));
            i += 1;
        }
        assert(transitions@ =~= self.transitions@);
        DFA {
            states_count: self.states_count,
            initial: self.initial,
            finals: copy_states(&self.finals),
            transitions,
        }
    }
}

} // verus!
