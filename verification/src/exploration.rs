//! Building a complete deterministic automaton by exploring a deterministic
//! system whose states are keys of some kind: each key found gets the next
//! free state number, and a stack holds the states whose row is still to be
//! written. Determinisation explores sets of states, the product explores
//! pairs of states.
use vstd::prelude::*;
use crate::alphabet::{is_word, is_symbol, rank, symbol, lemma_rank_symbol};
use crate::dfa::{DFA, closed_table, lemma_run_table_in_range};

verus! {

/// A deterministic system over keys of type `K`: where it starts, which key
/// follows a key on the symbol of a given rank, and which keys are final.
#[verifier::reject_recursive_types(K)]
pub struct System<K> {
    pub start: K,
    pub next: spec_fn(K, int) -> K,
    pub is_final: spec_fn(K) -> bool,
}

impl<K> System<K> {
    /// The key reached from the start by reading `w`.
    pub open spec fn after(self, w: Seq<char>) -> K
        decreases w.len(),
    {
        if w.len() == 0 {
            self.start
        } else {
            (self.next)(self.after(w.drop_last()), rank(w.last()))
        }
    }

    /// Whether the system accepts `w`: `w` is a word over the alphabet and
    /// reading it ends in a final key.
    pub open spec fn accepts(self, w: Seq<char>) -> bool {
        is_word(w) && (self.is_final)(self.after(w))
    }
}

/// For each symbol of rank below `upto`, `row` names the place in `keys` of
/// the key that follows `keys[s]` on that symbol.
pub open spec fn row_follows<K>(
    sys: System<K>,
    keys: Seq<K>,
    row: [usize; 26],
    s: int,
    upto: int,
) -> bool {
    forall|c: int|
        0 <= c < upto ==> (#[trigger] row@[c]) < keys.len() && keys[row@[c] as int] == (sys.next)(
            keys[s],
            c,
        )
}

/// No key is listed twice.
pub open spec fn distinct<K>(keys: Seq<K>) -> bool {
    forall|s: int, t: int|
        0 <= s < keys.len() && 0 <= t < keys.len() && s != t ==> keys[s] != keys[t]
}

/// State `s` is among those still to be expanded.
pub open spec fn on_stack(stack: Seq<usize>, s: int) -> bool {
    exists|k: int| 0 <= k < stack.len() && #[trigger] stack[k] == s
}

/// The states `lo..hi`, in increasing order.
pub open spec fn new_states(lo: int, hi: int) -> Seq<usize> {
    Seq::new((hi - lo) as nat, |i: int| (lo + i) as usize)
}

/// The keys known once state `s` has been expanded on the symbols of rank
/// below `upto`, `keys` being those known before: the symbols are taken in
/// the order of their ranks, and a key that follows `keys[s]` and is not
/// known yet is added at the end.
pub open spec fn expand<K>(sys: System<K>, keys: Seq<K>, s: int, upto: int) -> Seq<K>
    decreases upto,
{
    if upto <= 0 {
        keys
    } else {
        let before = expand(sys, keys, s, upto - 1);
        let found = (sys.next)(keys[s], upto - 1);
        if before.contains(found) {
            before
        } else {
            before.push(found)
        }
    }
}

/// The keys known and the stack of states still to be expanded after `n`
/// states have been expanded. At first the start key alone is known, as
/// state 0, and it is on the stack. Each time, the state on top of the
/// stack is taken off and expanded, and the states of the keys added are put
/// on the stack in the order in which they were added.
pub open spec fn explored<K>(sys: System<K>, n: nat) -> (Seq<K>, Seq<usize>)
    decreases n,
{
    if n == 0 {
        (seq![sys.start], seq![0usize])
    } else {
        let (keys, stack) = explored(sys, (n - 1) as nat);
        if stack.len() == 0 {
            (keys, stack)
        } else {
            let after = expand(sys, keys, stack.last() as int, 26);
            (after, stack.drop_last() + new_states(keys.len() as int, after.len() as int))
        }
    }
}

/// `keys` lists the keys that exploration finds, in the order in which it
/// finds them.
pub open spec fn in_discovery_order<K>(sys: System<K>, keys: Seq<K>) -> bool {
    exists|n: nat| #[trigger] explored(sys, n) == (keys, Seq::<usize>::empty())
}

/// `dfa` is the system `sys` restricted to the keys listed in `keys`: state
/// `s` stands for `keys[s]`, no key is listed twice, the initial state stands
/// for the start, each row follows the system, and a state is final exactly
/// when its key is.
pub open spec fn presents<K>(dfa: &DFA, sys: System<K>, keys: Seq<K>) -> bool {
    &&& keys.len() == dfa.states_count
    &&& keys[dfa.initial as int] == sys.start
    &&& distinct(keys)
    &&& forall|s: int|
        0 <= s < keys.len() ==> row_follows(sys, keys, #[trigger] dfa.transitions@[s], s, 26)
    &&& forall|q: usize|
        q < keys.len() ==> (#[trigger] dfa.finals@.contains(q) <==> (sys.is_final)(keys[q as int]))
}

/// Reading a word in an automaton that presents a system leads to the state
/// that stands for the key that the system reaches.
pub proof fn lemma_presents_run<K>(dfa: &DFA, sys: System<K>, keys: Seq<K>, w: Seq<char>)
    requires
        dfa.wf(),
        presents(dfa, sys, keys),
        is_word(w),
    ensures
        0 <= dfa.run(w) < keys.len(),
        keys[dfa.run(w)] == sys.after(w),
    decreases w.len(),
{
    if w.len() > 0 {
        let v = w.drop_last();
        lemma_presents_run(dfa, sys, keys, v);
        lemma_run_table_in_range(dfa.transitions@, dfa.initial as int, w);
        assert(is_symbol(w[w.len() - 1]));
        let s = dfa.run(v);
        let c = rank(w.last());
        assert(row_follows(sys, keys, dfa.transitions@[s], s, 26));
        assert(dfa.transitions@[s]@[c] < keys.len());
    }
}

/// An automaton that presents a system accepts the words that the system accepts.
pub proof fn lemma_presents_language<K>(dfa: &DFA, sys: System<K>, keys: Seq<K>, w: Seq<char>)
    requires
        dfa.wf(),
        presents(dfa, sys, keys),
    ensures
        dfa.accepts(w) <==> sys.accepts(w),
{
    if is_word(w) {
        lemma_presents_run(dfa, sys, keys, w);
        let q = dfa.run(w) as usize;
        assert(dfa.finals@.contains(q) <==> (sys.is_final)(keys[q as int]));
    }
}

/// What holds while a system is explored: of the keys found so far, of the
/// rows written so far, and of the states still to be expanded. State
/// `current`, if any, is the one being expanded; `words[s]` is a word that
/// leads to `keys[s]`.
pub open spec fn exploring<K>(
    sys: System<K>,
    keys: Seq<K>,
    rows: Seq<[usize; 26]>,
    finals: Set<usize>,
    stack: Seq<usize>,
    words: Seq<Seq<char>>,
    current: int,
) -> bool {
    &&& keys.len() == rows.len()
    &&& keys.len() == words.len()
    &&& keys.len() >= 1
    &&& keys[0] == sys.start
    &&& distinct(keys)
    &&& forall|k: int| 0 <= k < stack.len() ==> (#[trigger] stack[k]) < keys.len()
    &&& forall|s: int|
        0 <= s < keys.len() ==> s == current || on_stack(stack, s) || row_follows(
            sys,
            keys,
            #[trigger] rows[s],
            s,
            26,
        )
    &&& forall|q: usize| finals.contains(q) <==> q < keys.len() && (sys.is_final)(keys[q as int])
    &&& forall|s: int|
        0 <= s < keys.len() ==> is_word(#[trigger] words[s]) && sys.after(words[s]) == keys[s]
}

/// Exploration starts with the start key alone, as state 0, on the stack.
pub proof fn lemma_exploring_start<K>(sys: System<K>, blank: [usize; 26])
    ensures
        exploring(
            sys,
            seq![sys.start],
            seq![blank],
            if (sys.is_final)(sys.start) {
                set![0usize]
            } else {
                Set::<usize>::empty()
            },
            seq![0usize],
            seq![Seq::<char>::empty()],
            -1,
        ),
{
    let stack = seq![0usize];
    assert(stack[0] == 0);
    assert(on_stack(stack, 0));
}

/// Taking the last state off the stack makes it the current one.
pub proof fn lemma_exploring_pop<K>(
    sys: System<K>,
    keys: Seq<K>,
    rows: Seq<[usize; 26]>,
    finals: Set<usize>,
    stack: Seq<usize>,
    words: Seq<Seq<char>>,
)
    requires
        exploring(sys, keys, rows, finals, stack, words, -1),
        stack.len() > 0,
    ensures
        exploring(sys, keys, rows, finals, stack.drop_last(), words, stack.last() as int),
        stack.last() < keys.len(),
{
    let rest = stack.drop_last();
    assert forall|s: int| 0 <= s < keys.len() implies s == stack.last() || on_stack(rest, s)
        || row_follows(sys, keys, #[trigger] rows[s], s, 26) by {
        if on_stack(stack, s) && s != stack.last() {
            let k = choose|k: int| 0 <= k < stack.len() && #[trigger] stack[k] == s;
            assert(rest[k] == s);
        }
    }
    assert forall|k: int| 0 <= k < rest.len() implies (#[trigger] rest[k]) < keys.len() by {
        assert(rest[k] == stack[k]);
    }
    assert(stack[stack.len() - 1] < keys.len());
}

/// Finding a new key adds a state, with a blank row, to the stack.
pub proof fn lemma_exploring_discover<K>(
    sys: System<K>,
    keys: Seq<K>,
    rows: Seq<[usize; 26]>,
    finals: Set<usize>,
    stack: Seq<usize>,
    words: Seq<Seq<char>>,
    current: int,
    c: int,
    blank: [usize; 26],
    id: usize,
)
    requires
        exploring(sys, keys, rows, finals, stack, words, current),
        0 <= current < keys.len(),
        0 <= c < 26,
        forall|s: int| 0 <= s < keys.len() ==> #[trigger] keys[s] != (sys.next)(keys[current], c),
        id == keys.len(),
    ensures
        ({
            let found = (sys.next)(keys[current], c);
            exploring(
                sys,
                keys.push(found),
                rows.push(blank),
                if (sys.is_final)(found) {
                    finals.insert(id)
                } else {
                    finals
                },
                stack.push(id),
                words.push(words[current].push(symbol(c))),
                current,
            )
        }),
{
    let found = (sys.next)(keys[current], c);
    let keys2 = keys.push(found);
    let rows2 = rows.push(blank);
    let finals2 = if (sys.is_final)(found) {
        finals.insert(id)
    } else {
        finals
    };
    let stack2 = stack.push(id);
    let word = words[current].push(symbol(c));
    let words2 = words.push(word);
    assert(is_word(words[current]));
    assert(is_word(word) && sys.after(word) == found) by {
        lemma_rank_symbol();
        assert(word.drop_last() =~= words[current]);
    }
    assert forall|s: int| 0 <= s < keys2.len() implies is_word(#[trigger] words2[s]) && sys.after(
        words2[s],
    ) == keys2[s] by {
        if s < keys.len() {
            assert(words2[s] == words[s]);
            assert(keys2[s] == keys[s]);
        }
    }
    assert(distinct(keys2)) by {
        assert forall|s: int, t: int|
            0 <= s < keys2.len() && 0 <= t < keys2.len() && s != t implies keys2[s] != keys2[t] by {
            if s < keys.len() {
                assert(keys2[s] == keys[s]);
            }
            if t < keys.len() {
                assert(keys2[t] == keys[t]);
            }
        }
    }
    assert forall|k: int| 0 <= k < stack2.len() implies (#[trigger] stack2[k]) < keys2.len() by {
        if k < stack.len() {
            assert(stack2[k] == stack[k]);
        }
    }
    assert forall|s: int| 0 <= s < keys2.len() implies s == current || on_stack(stack2, s)
        || row_follows(sys, keys2, #[trigger] rows2[s], s, 26) by {
        if s == keys.len() {
            assert(stack2[stack.len() as int] == s);
        } else if s != current {
            assert(rows2[s] == rows[s]);
            if on_stack(stack, s) {
                let k = choose|k: int| 0 <= k < stack.len() && #[trigger] stack[k] == s;
                assert(stack2[k] == s);
            } else {
                assert(row_follows(sys, keys, rows[s], s, 26));
                assert forall|d: int| 0 <= d < 26 implies (#[trigger] rows2[s]@[d]) < keys2.len()
                    && keys2[rows2[s]@[d] as int] == (sys.next)(keys2[s], d) by {
                    assert(rows[s]@[d] < keys.len());
                    assert(keys2[rows[s]@[d] as int] == keys[rows[s]@[d] as int]);
                    assert(keys2[s] == keys[s]);
                }
            }
        }
    }
    assert forall|q: usize|
        finals2.contains(q) <==> q < keys2.len() && (sys.is_final)(keys2[q as int]) by {
        if q < keys.len() {
            assert(keys2[q as int] == keys[q as int]);
        }
    }
}

/// Expanding on one more symbol, when the key that follows is known.
pub proof fn lemma_expand_known<K>(
    sys: System<K>,
    before: Seq<K>,
    keys: Seq<K>,
    s: int,
    c: int,
    j: int,
)
    requires
        0 <= c,
        keys == expand(sys, before, s, c),
        0 <= j < keys.len(),
        keys[j] == (sys.next)(before[s], c),
    ensures
        expand(sys, before, s, c + 1) == keys,
{
    assert(keys.contains((sys.next)(before[s], c)));
}

/// Expanding on one more symbol, when the key that follows is new.
pub proof fn lemma_expand_new<K>(
    sys: System<K>,
    before: Seq<K>,
    keys: Seq<K>,
    stack: Seq<usize>,
    s: int,
    c: int,
    id: usize,
)
    requires
        0 <= c,
        keys == expand(sys, before, s, c),
        forall|i: int| 0 <= i < keys.len() ==> #[trigger] keys[i] != (sys.next)(before[s], c),
        before.len() <= keys.len(),
        id == keys.len(),
    ensures
        expand(sys, before, s, c + 1) == keys.push((sys.next)(before[s], c)),
        (stack + new_states(before.len() as int, keys.len() as int)).push(id) == stack + new_states(
            before.len() as int,
            keys.len() as int + 1,
        ),
{
    let found = (sys.next)(before[s], c);
    if keys.contains(found) {
        let i = choose|i: int| 0 <= i < keys.len() && keys[i] == found;
        assert(keys[i] != found);
    }
    assert((stack + new_states(before.len() as int, keys.len() as int)).push(id) =~= stack
        + new_states(before.len() as int, keys.len() as int + 1));
}

/// Writing one more entry of the row of the current state.
pub proof fn lemma_row_follows_next<K>(
    sys: System<K>,
    keys: Seq<K>,
    row: [usize; 26],
    row2: [usize; 26],
    s: int,
    c: int,
)
    requires
        row_follows(sys, keys, row, s, c),
        0 <= c < 26,
        row2@ == row@.update(c, row2@[c]),
        row2@[c] < keys.len(),
        keys[row2@[c] as int] == (sys.next)(keys[s], c),
    ensures
        row_follows(sys, keys, row2, s, c + 1),
{
    assert forall|d: int| 0 <= d < c + 1 implies (#[trigger] row2@[d]) < keys.len()
        && keys[row2@[d] as int] == (sys.next)(keys[s], d) by {
        if d < c {
            assert(row2@[d] == row@[d]);
        }
    }
}

/// A row written so far stays right when a key is added.
pub proof fn lemma_row_follows_push<K>(
    sys: System<K>,
    keys: Seq<K>,
    row: [usize; 26],
    s: int,
    upto: int,
    found: K,
)
    requires
        row_follows(sys, keys, row, s, upto),
        0 <= s < keys.len(),
    ensures
        row_follows(sys, keys.push(found), row, s, upto),
{
    let keys2 = keys.push(found);
    assert forall|d: int| 0 <= d < upto implies (#[trigger] row@[d]) < keys2.len()
        && keys2[row@[d] as int] == (sys.next)(keys2[s], d) by {
        assert(row@[d] < keys.len());
        assert(keys2[row@[d] as int] == keys[row@[d] as int]);
        assert(keys2[s] == keys[s]);
    }
}

/// Writing the finished row of the current state leaves no state current.
pub proof fn lemma_exploring_write<K>(
    sys: System<K>,
    keys: Seq<K>,
    rows: Seq<[usize; 26]>,
    finals: Set<usize>,
    stack: Seq<usize>,
    words: Seq<Seq<char>>,
    current: int,
    row: [usize; 26],
)
    requires
        exploring(sys, keys, rows, finals, stack, words, current),
        0 <= current < keys.len(),
        row_follows(sys, keys, row, current, 26),
    ensures
        exploring(sys, keys, rows.update(current, row), finals, stack, words, -1),
{
    let rows2 = rows.update(current, row);
    assert forall|s: int| 0 <= s < keys.len() implies on_stack(stack, s) || row_follows(
        sys,
        keys,
        #[trigger] rows2[s],
        s,
        26,
    ) by {
        if s != current {
            assert(rows2[s] == rows[s]);
        }
    }
}

/// Once no state is left to expand, the automaton built is complete, it
/// presents the system, and every one of its states is reached by some word.
pub proof fn lemma_exploring_finished<K>(
    dfa: &DFA,
    sys: System<K>,
    keys: Seq<K>,
    words: Seq<Seq<char>>,
)
    requires
        dfa.initial == 0,
        dfa.states_count == keys.len(),
        exploring(sys, keys, dfa.transitions@, dfa.finals@, Seq::<usize>::empty(), words, -1),
    ensures
        dfa.wf(),
        presents(dfa, sys, keys),
        dfa.all_reachable(),
{
    let rows = dfa.transitions@;
    let none = Seq::<usize>::empty();
    assert forall|s: int| 0 <= s < keys.len() implies row_follows(
        sys,
        keys,
        #[trigger] rows[s],
        s,
        26,
    ) by {
        assert(!on_stack(none, s));
    }
    assert(closed_table(rows)) by {
        assert forall|s: int, i: int| 0 <= s < rows.len() && 0 <= i < 26 implies (
        #[trigger] rows[s]@[i]) < rows.len() by {
            assert(row_follows(sys, keys, rows[s], s, 26));
        }
    }
    assert(presents(dfa, sys, keys));
    assert forall|q: int| 0 <= q < dfa.states_count implies #[trigger] dfa.reachable(q) by {
        let w = words[q];
        lemma_presents_run(dfa, sys, keys, w);
        assert(keys[dfa.run(w)] == keys[q]);
        assert(is_word(w) && dfa.run(w) == q);
    }
}

} // verus!
