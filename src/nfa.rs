//! Nondeterministic finite automata.
use vstd::prelude::*;
use crate::data::{
    AutomatonData, ConstructionError, Transition, VertexId, finals_of, starts_of,
    distinct_in_order, declared_states, labelled_edges, edge_symbols, collect_edges,
};
use crate::text::{chars_of, contains_id};
use crate::dfa::{lookup, run, dfa_accepts, dfa_of};
use crate::describe::{Entry, entries_view, decimal, decimal_chars, append_chars, described, describe_with_starts};

verus! {

broadcast use vstd::seq_lib::lemma_seq_contains_after_push;

/// What an NFA is, mathematically.
pub struct NfaModel {
    pub transitions: Seq<Transition>,
    pub finals: Seq<VertexId>,
    pub starts: Seq<VertexId>,
    pub alphabet: Seq<char>,
}

/// Whether transition `i` leads from a state of `front` on `c` to `x`.
pub open spec fn moves_to(ts: Seq<Transition>, front: Set<VertexId>, c: char, i: int, x: VertexId) -> bool {
    0 <= i < ts.len() && front.contains(ts[i].0) && ts[i].1 == c && ts[i].2 == x
}

/// The states reached from `front` by one transition on `c`.
pub open spec fn step(ts: Seq<Transition>, front: Set<VertexId>, c: char) -> Set<VertexId> {
    Set::new(|x: VertexId| exists|i: int| moves_to(ts, front, c, i, x))
}

/// The states reached from `front` by reading `w`.
pub open spec fn run_set(ts: Seq<Transition>, front: Set<VertexId>, w: Seq<char>) -> Set<VertexId>
    decreases w.len(),
{
    if w.len() == 0 {
        front
    } else {
        step(ts, run_set(ts, front, w.drop_last()), w.last())
    }
}

/// Whether the NFA accepts `w`: some state reached from a start state is final.
pub open spec fn nfa_accepts(m: NfaModel, w: Seq<char>) -> bool {
    exists|q: VertexId| run_set(m.transitions, m.starts.to_set(), w).contains(q) && m.finals.contains(q)
}

/// The NFA that a description builds, when it builds one.
pub open spec fn nfa_of(data: Seq<AutomatonData>) -> NfaModel {
    NfaModel {
        transitions: labelled_edges(data),
        finals: finals_of(data),
        starts: starts_of(data),
        alphabet: distinct_in_order(edge_symbols(labelled_edges(data))),
    }
}

/// How a transition is shown.
pub open spec fn nfa_line(t: Transition) -> Seq<char> {
    "\n    "@ + seq![t.1] + " -> "@ + decimal(t.2 as nat)
}

/// The shown lines of the transitions.
pub open spec fn nfa_entries(ts: Seq<Transition>) -> Seq<Entry> {
    ts.map_values(|t: Transition| (t.0, nfa_line(t)))
}

/// A nondeterministic finite automaton, without epsilon moves.
pub struct NFA {
    transitions: Vec<Transition>,
    alphabet: Vec<char>,
    final_states: Vec<VertexId>,
    start_states: Vec<VertexId>,
}

impl NFA {
    /// The alphabet is that of the transitions, none of which reads epsilon.
    #[verifier::type_invariant]
    spec fn well_formed(&self) -> bool {
        &&& crate::data::epsilon_free(self.transitions@)
        &&& self.alphabet@ == distinct_in_order(edge_symbols(self.transitions@))
    }

    /// What the automaton is, mathematically.
    pub closed spec fn model(&self) -> NfaModel {
        NfaModel {
            transitions: self.transitions@,
            finals: self.final_states@,
            starts: self.start_states@,
            alphabet: self.alphabet@,
        }
    }
}

/// The states reached from the states of `front` by one transition on `c`.
fn next_frontier(ts: &Vec<Transition>, front: &Vec<VertexId>, c: char) -> (r: Vec<VertexId>)
    ensures
        r@.to_set() == step(ts@, front@.to_set(), c),
{
    let ghost f = front@.to_set();
    let mut next: Vec<VertexId> = Vec::new();
    let mut j: usize = 0;
    while j < ts.len()
        invariant
            j <= ts.len(),
            f == front@.to_set(),
            forall|x: VertexId| next@.contains(x) <==> exists|i: int| 0 <= i < j && #[trigger] moves_to(ts@, f, c, i, x),
        decreases ts.len() - j,
    {
        let t = ts[j];
        let ghost prev = next@;
        let pushes = t.1 == c && contains_id(front, t.0);
        if pushes && !contains_id(&next, t.2) {
            next.push(t.2);
        }
        assert(pushes == (f.contains(t.0) && t.1 == c));
        assert forall|x: VertexId| next@.contains(x) <==> exists|i: int| 0 <= i < j + 1 && #[trigger] moves_to(ts@, f, c, i, x) by {
            assert(next@.contains(x) <==> (prev.contains(x) || (pushes && x == t.2)));
            if pushes && x == t.2 {
                assert(moves_to(ts@, f, c, j as int, x));
            }
            if exists|i: int| 0 <= i < j + 1 && #[trigger] moves_to(ts@, f, c, i, x) {
                let i = choose|i: int| 0 <= i < j + 1 && #[trigger] moves_to(ts@, f, c, i, x);
                if i < j {
                    assert(prev.contains(x));
                }
            }
        }
        j += 1;
    }
    assert(next@.to_set() =~= step(ts@, f, c));
    next
}

impl NFA {
    /// Whether the automaton accepts `word`.
    pub fn accepts(&self, word: &str) -> (r: bool)
        ensures
            r == nfa_accepts(self.model(), word@),
    {
        let w = chars_of(word);
        let mut current: Vec<VertexId> = Vec::new();
        let mut k: usize = 0;
        while k < self.start_states.len()
            invariant
                k <= self.start_states.len(),
                current@ == self.start_states@.subrange(0, k as int),
            decreases self.start_states.len() - k,
        {
            current.push(self.start_states[k]);
            k += 1;
            assert(current@ =~= self.start_states@.subrange(0, k as int));
        }
        assert(current@ =~= self.start_states@);
        let mut i: usize = 0;
        while i < w.len()
            invariant
                i <= w.len(),
                w@ == word@,
                current@.to_set() == run_set(self.transitions@, self.start_states@.to_set(), w@.subrange(0, i as int)),
            decreases w.len() - i,
        {
            assert(w@.subrange(0, i + 1).drop_last() =~= w@.subrange(0, i as int));
            current = next_frontier(&self.transitions, &current, w[i]);
            i += 1;
        }
        assert(w@.subrange(0, w.len() as int) =~= word@);
        let ghost reached = current@.to_set();
        assert(reached == run_set(self.transitions@, self.start_states@.to_set(), word@));
        let mut j: usize = 0;
        while j < current.len()
            invariant
                j <= current.len(),
                reached == current@.to_set(),
                reached == run_set(self.transitions@, self.start_states@.to_set(), word@),
                forall|x: int| 0 <= x < j ==> !self.final_states@.contains(#[trigger] current@[x]),
            decreases current.len() - j,
        {
            if contains_id(&self.final_states, current[j]) {
                assert(current@.contains(current@[j as int]));
                assert(reached.contains(current@[j as int]));
                assert(run_set(self.model().transitions, self.model().starts.to_set(), word@).contains(current@[j as int]));
                assert(self.model().finals.contains(current@[j as int]));
                return true;
            }
            j += 1;
        }
        assert forall|q: VertexId| !(reached.contains(q) && self.final_states@.contains(q)) by {
            if reached.contains(q) {
                let x = choose|x: int| 0 <= x < current.len() && current@[x] == q;
            }
        }
        false
    }

    /// Builds the NFA that `data` describes.
    ///
    /// Transitions whose label is not exactly one character are left out.
    pub fn new(data: Vec<AutomatonData>) -> (r: Result<NFA, ConstructionError>)
        ensures
            starts_of(data@).len() == 0 ==> r == Err::<NFA, ConstructionError>(
                ConstructionError::MissingStartState,
            ),
            starts_of(data@).len() > 0 ==> (r matches Ok(n) && n.model() == nfa_of(data@)),
    {
        let (transitions, alphabet, _) = collect_edges(&data);
        let (final_states, start_states) = declared_states(&data);
        if start_states.len() == 0 {
            return Err(ConstructionError::MissingStartState);
        }
        proof { crate::data::lemma_labelled_epsilon_free(data@); }
        Ok(NFA { transitions, alphabet, final_states, start_states })
    }

    /// A description of the automaton, in a fixed order: its final and start
    /// states, then each state with a transition, in ascending order, with its
    /// transitions.
    pub fn view(&self) -> (r: String)
        ensures
            described("Type: NFA"@, self.model().finals, self.model().starts, nfa_entries(self.model().transitions), r@),
    {
        let ts = &self.transitions;
        let mut es: Vec<(VertexId, Vec<char>)> = Vec::new();
        let mut i: usize = 0;
        while i < ts.len()
            invariant
                i <= ts.len(),
                entries_view(es@) == nfa_entries(ts@.subrange(0, i as int)),
            decreases ts.len() - i,
        {
            let t = ts[i];
            let mut line = chars_of("\n    ");
            line.push(t.1);
            append_chars(&mut line, &chars_of(" -> "));
            append_chars(&mut line, &decimal_chars(t.2));
            assert(line@ =~= nfa_line(t));
            let ghost before = es@;
            let ghost lv = line@;
            es.push((t.0, line));
            assert(entries_view(es@) =~= entries_view(before).push((t.0, lv)));
            assert(nfa_entries(ts@.subrange(0, i + 1)) =~= nfa_entries(ts@.subrange(0, i as int)).push((t.0, nfa_line(t))));
            i += 1;
        }
        assert(ts@.subrange(0, ts.len() as int) =~= ts@);
        describe_with_starts("Type: NFA", &self.final_states, &self.start_states, &es)
    }

    /// The symbols of the transitions, each once, in order of first declaration.
    pub fn alphabet(&self) -> (r: &Vec<char>)
        ensures
            r@ == self.model().alphabet,
            !r@.contains(crate::data::EPSILON),
    {
        proof {
            use_type_invariant(self);
            crate::data::lemma_alphabet_without_epsilon(self.transitions@);
        }
        &self.alphabet
    }
}

/// Whether no two transitions leave the same state on the same symbol.
pub open spec fn deterministic(ts: Seq<Transition>) -> bool {
    forall|i: int, j: int|
        0 <= i < ts.len() && 0 <= j < ts.len() && #[trigger] ts[i].0 == #[trigger] ts[j].0 && ts[i].1
            == ts[j].1 ==> i == j
}

pub(crate) proof fn lemma_lookup_witness(ts: Seq<Transition>, q: VertexId, c: char)
    ensures
        match lookup(ts, q, c) {
            Some(t) => exists|i: int| 0 <= i < ts.len() && ts[i] == (q, c, t),
            None => forall|i: int| 0 <= i < ts.len() ==> !(ts[i].0 == q && ts[i].1 == c),
        },
    decreases ts.len(),
{
    if ts.len() > 0 {
        lemma_lookup_witness(ts.drop_last(), q, c);
        if !(ts.last().0 == q && ts.last().1 == c) {
            match lookup(ts, q, c) {
                Some(t) => {
                    let i = choose|i: int| 0 <= i < ts.drop_last().len() && ts.drop_last()[i] == (q, c, t);
                    assert(ts[i] == (q, c, t));
                },
                None => {
                    assert forall|i: int| 0 <= i < ts.len() implies !(ts[i].0 == q && ts[i].1 == c) by {
                        if i < ts.len() - 1 {
                            assert(ts[i] == ts.drop_last()[i]);
                        }
                    }
                },
            }
        }
    }
}

/// The states that a DFA run on `ts` reaches, as a set.
pub open spec fn run_as_set(r: Option<VertexId>) -> Set<VertexId> {
    match r {
        Some(q) => set![q],
        None => Set::empty(),
    }
}

proof fn lemma_single_run(ts: Seq<Transition>, s: VertexId, w: Seq<char>)
    requires
        deterministic(ts),
    ensures
        run_set(ts, set![s], w) == run_as_set(run(ts, s, w)),
    decreases w.len(),
{
    if w.len() > 0 {
        lemma_single_run(ts, s, w.drop_last());
        let c = w.last();
        let front = run_set(ts, set![s], w.drop_last());
        match run(ts, s, w.drop_last()) {
            Some(p) => {
                lemma_lookup_witness(ts, p, c);
                assert(front == set![p]);
                assert forall|x: VertexId| step(ts, front, c).contains(x) <==> run_as_set(lookup(ts, p, c)).contains(x) by {
                    if step(ts, front, c).contains(x) {
                        let i = choose|i: int| moves_to(ts, front, c, i, x);
                        if let Some(t) = lookup(ts, p, c) {
                            let j = choose|j: int| 0 <= j < ts.len() && ts[j] == (p, c, t);
                            assert(ts[i].0 == ts[j].0);
                        }
                    }
                    if let Some(t) = lookup(ts, p, c) {
                        if x == t {
                            let j = choose|j: int| 0 <= j < ts.len() && ts[j] == (p, c, t);
                            assert(moves_to(ts, front, c, j, x));
                        }
                    }
                }
                assert(step(ts, front, c) =~= run_as_set(lookup(ts, p, c)));
            },
            None => {
                assert(step(ts, front, c) =~= Set::<VertexId>::empty());
            },
        }
    }
}

/// An NFA built from a description with one start state and at most one
/// transition per state and symbol accepts exactly what the DFA built from the
/// same description accepts.
pub proof fn lemma_nfa_matches_dfa(data: Seq<AutomatonData>, w: Seq<char>)
    requires
        starts_of(data).len() == 1,
        deterministic(labelled_edges(data)),
    ensures
        nfa_accepts(nfa_of(data), w) == dfa_accepts(dfa_of(data), w),
{
    let ts = labelled_edges(data);
    let s = starts_of(data)[0];
    assert(starts_of(data).to_set() =~= set![s]);
    lemma_single_run(ts, s, w);
    let finals = finals_of(data);
    assert(dfa_of(data).start == s);
    assert(nfa_of(data).starts.to_set() == set![s]);
    match run(ts, s, w) {
        Some(q) => {
            if finals.contains(q) {
                assert(run_set(ts, starts_of(data).to_set(), w).contains(q));
                let m = nfa_of(data);
                assert(run_set(m.transitions, m.starts.to_set(), w).contains(q) && m.finals.contains(q));
            }
            if nfa_accepts(nfa_of(data), w) {
                let x = choose|x: VertexId| run_set(ts, starts_of(data).to_set(), w).contains(x) && finals.contains(x);
                assert(x == q);
            }
            assert(dfa_accepts(dfa_of(data), w) == finals.contains(q));
            assert(nfa_accepts(nfa_of(data), w) == finals.contains(q));
        },
        None => {
            assert(!nfa_accepts(nfa_of(data), w));
        },
    }
}

} // verus!
