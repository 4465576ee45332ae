//! Deterministic finite automata.
use vstd::prelude::*;
use crate::data::{
    AutomatonData, ConstructionError, Transition, VertexId, finals_of, starts_of,
    distinct_in_order, declared_states, labelled_edges, edge_count, edge_symbols, collect_edges,
};
use crate::text::{chars_of, contains_id};
use crate::describe::{
    Entry, entries_view, entry_states, blocks, states_text, ascending, decimal, decimal_chars,
    append_chars, describe, append_sorted_states,
};

verus! {

/// What a DFA is, mathematically.
pub struct DfaModel {
    /// Transitions in order of declaration; a later one for the same state and symbol wins.
    pub transitions: Seq<Transition>,
    pub finals: Seq<VertexId>,
    pub start: VertexId,
    pub alphabet: Seq<char>,
}

/// The target of the last transition declared for `q` and `c`.
pub open spec fn lookup(ts: Seq<Transition>, q: VertexId, c: char) -> Option<VertexId>
    decreases ts.len(),
{
    if ts.len() == 0 {
        None
    } else if ts.last().0 == q && ts.last().1 == c {
        Some(ts.last().2)
    } else {
        lookup(ts.drop_last(), q, c)
    }
}

/// The state reached from `q` after reading `w`, or `None` once a transition is missing.
pub open spec fn run(ts: Seq<Transition>, q: VertexId, w: Seq<char>) -> Option<VertexId>
    decreases w.len(),
{
    if w.len() == 0 {
        Some(q)
    } else {
        match run(ts, q, w.drop_last()) {
            Some(p) => lookup(ts, p, w.last()),
            None => None,
        }
    }
}

/// Whether the DFA accepts `w`: no transition is missing and the last state is final.
pub open spec fn dfa_accepts(m: DfaModel, w: Seq<char>) -> bool {
    match run(m.transitions, m.start, w) {
        Some(q) => m.finals.contains(q),
        None => false,
    }
}

/// The DFA that a description builds, when it builds one.
pub open spec fn dfa_of(data: Seq<AutomatonData>) -> DfaModel {
    DfaModel {
        transitions: labelled_edges(data),
        finals: finals_of(data),
        start: starts_of(data).last(),
        alphabet: distinct_in_order(edge_symbols(labelled_edges(data))),
    }
}

/// Whether no later transition replaces transition `i`.
pub open spec fn effective(ts: Seq<Transition>, i: int) -> bool {
    forall|j: int| i < j < ts.len() ==> !(#[trigger] ts[j].0 == ts[i].0 && ts[j].1 == ts[i].1)
}

/// How a transition is shown.
pub open spec fn dfa_line(t: Transition) -> Seq<char> {
    "\n    "@ + seq![t.1] + " -> "@ + decimal(t.2 as nat)
}

/// The shown lines of the first `n` transitions, those that no later one replaces.
pub open spec fn dfa_entries(ts: Seq<Transition>, n: int) -> Seq<Entry>
    decreases n,
{
    if n <= 0 {
        Seq::empty()
    } else if effective(ts, n - 1) {
        dfa_entries(ts, n - 1).push((ts[n - 1].0, dfa_line(ts[n - 1])))
    } else {
        dfa_entries(ts, n - 1)
    }
}

/// The first lines of the description, with the final states in `finals` order.
pub open spec fn dfa_header(m: DfaModel, finals: Seq<VertexId>) -> Seq<char> {
    "Type: DFA\nFinal States: "@ + states_text(finals) + "\nStart State: "@ + decimal(m.start as nat)
}

/// The description of a DFA: its final states and start state, then each state
/// with a transition, in ascending order, with the transitions that are in force.
pub open spec fn dfa_description(m: DfaModel, text: Seq<char>) -> bool {
    exists|finals: Seq<VertexId>, order: Seq<VertexId>|
        ascending(finals) && finals.to_set() == m.finals.to_set() && ascending(order)
            && order.to_set() == entry_states(dfa_entries(m.transitions, m.transitions.len() as int))
            && text == #[trigger] dfa_header(m, finals) + #[trigger] blocks(
            order,
            dfa_entries(m.transitions, m.transitions.len() as int),
        )
}

/// A deterministic finite automaton.
pub struct DFA {
    transitions: Vec<Transition>,
    alphabet: Vec<char>,
    final_states: Vec<VertexId>,
    start_state: VertexId,
}

impl DFA {
    /// The alphabet is that of the transitions, none of which reads epsilon.
    #[verifier::type_invariant]
    spec fn well_formed(&self) -> bool {
        &&& crate::data::epsilon_free(self.transitions@)
        &&& self.alphabet@ == distinct_in_order(edge_symbols(self.transitions@))
    }

    /// What the automaton is, mathematically.
    pub closed spec fn model(&self) -> DfaModel {
        DfaModel {
            transitions: self.transitions@,
            finals: self.final_states@,
            start: self.start_state,
            alphabet: self.alphabet@,
        }
    }
}

/// Looks up the transition taken from `q` on `c`.
fn find_target(ts: &Vec<Transition>, q: VertexId, c: char) -> (r: Option<VertexId>)
    ensures
        r == lookup(ts@, q, c),
{
    let mut i: usize = ts.len();
    assert(ts@.subrange(0, i as int) =~= ts@);
    while i > 0
        invariant
            i <= ts.len(),
            lookup(ts@, q, c) == lookup(ts@.subrange(0, i as int), q, c),
        decreases i,
    {
        let t = ts[i - 1];
        assert(ts@.subrange(0, i as int).drop_last() =~= ts@.subrange(0, i - 1));
        if t.0 == q && t.1 == c {
            return Some(t.2);
        }
        i -= 1;
    }
    None
}

impl DFA {
    /// Whether the automaton accepts `word`.
    pub fn accepts(&self, word: &str) -> (r: bool)
        ensures
            r == dfa_accepts(self.model(), word@),
    {
        let w = chars_of(word);
        let mut current: Option<VertexId> = Some(self.start_state);
        let mut i: usize = 0;
        while i < w.len()
            invariant
                i <= w.len(),
                w@ == word@,
                current == run(self.transitions@, self.start_state, w@.subrange(0, i as int)),
            decreases w.len() - i,
        {
            assert(w@.subrange(0, i + 1).drop_last() =~= w@.subrange(0, i as int));
            if let Some(p) = current {
                current = find_target(&self.transitions, p, w[i]);
            }
            i += 1;
        }
        assert(w@.subrange(0, w.len() as int) =~= word@);
        match current {
            Some(q) => contains_id(&self.final_states, q),
            None => false,
        }
    }

    /// Builds the DFA that `data` describes.
    ///
    /// A description without edges is refused, and so is one without a start
    /// state. Transitions whose label is not exactly one character, or is the
    /// epsilon symbol, are left out (the automaton then has no transition for
    /// them). A later transition for the same state and symbol replaces an earlier
    /// one, and the last start state declared is the one used.
    pub fn new(data: Vec<AutomatonData>) -> (r: Result<DFA, ConstructionError>)
        ensures
            edge_count(data@) == 0 ==> r == Err::<DFA, ConstructionError>(
                ConstructionError::NoStates,
            ),
            edge_count(data@) > 0 && starts_of(data@).len() == 0 ==> r == Err::<
                DFA,
                ConstructionError,
            >(ConstructionError::MissingStartState),
            edge_count(data@) > 0 && starts_of(data@).len() > 0 ==> (r matches Ok(d) && d.model()
                == dfa_of(data@)),
    {
        let (transitions, alphabet, edges) = collect_edges(&data);
        let (final_states, starts) = declared_states(&data);
        if edges == 0 {
            return Err(ConstructionError::NoStates);
        }
        if starts.len() == 0 {
            return Err(ConstructionError::MissingStartState);
        }
        let start_state = starts[starts.len() - 1];
        proof { crate::data::lemma_labelled_epsilon_free(data@); }
        Ok(DFA { transitions, alphabet, final_states, start_state })
    }

    /// A description of the automaton, in a fixed order.
    pub fn view(&self) -> (r: String)
        ensures
            dfa_description(self.model(), r@),
    {
        let ts = &self.transitions;
        let mut es: Vec<(VertexId, Vec<char>)> = Vec::new();
        let mut i: usize = 0;
        while i < ts.len()
            invariant
                i <= ts.len(),
                entries_view(es@) == dfa_entries(ts@, i as int),
            decreases ts.len() - i,
        {
            let t = ts[i];
            let mut later = false;
            let mut j: usize = i + 1;
            while j < ts.len()
                invariant
                    i < j <= ts.len(),
                    t == ts@[i as int],
                    !later ==> forall|x: int| i < x < j ==> !(#[trigger] ts@[x].0 == t.0 && ts@[x].1 == t.1),
                    later ==> !effective(ts@, i as int),
                decreases ts.len() - j,
            {
                if ts[j].0 == t.0 && ts[j].1 == t.1 {
                    later = true;
                }
                j += 1;
            }
            if !later {
                let mut line = chars_of("\n    ");
                line.push(t.1);
                append_chars(&mut line, &chars_of(" -> "));
                append_chars(&mut line, &decimal_chars(t.2));
                assert(line@ =~= dfa_line(t));
                let ghost before = es@;
                es.push((t.0, line));
                assert(entries_view(es@) =~= entries_view(before).push((t.0, dfa_line(t))));
            }
            i += 1;
        }
        let mut header = chars_of("Type: DFA\nFinal States: ");
        append_sorted_states(&mut header, &self.final_states);
        let ghost finals = choose|finals: Seq<VertexId>|
            ascending(finals) && finals.to_set() == self.final_states@.to_set() && header@ == "Type: DFA\nFinal States: "@
                + #[trigger] states_text(finals);
        append_chars(&mut header, &chars_of("\nStart State: "));
        append_chars(&mut header, &decimal_chars(self.start_state));
        assert(header@ =~= dfa_header(self.model(), finals));
        let r = describe(header, &es);
        let ghost order = choose|order: Seq<VertexId>|
            ascending(order) && order.to_set() == entry_states(entries_view(es@)) && r@ == dfa_header(self.model(), finals)
                + #[trigger] blocks(order, entries_view(es@));
        assert(entries_view(es@) == dfa_entries(self.model().transitions, self.model().transitions.len() as int));
        assert(r@ == dfa_header(self.model(), finals) + blocks(order, dfa_entries(self.model().transitions, self.model().transitions.len() as int)));
        assert(dfa_description(self.model(), r@));
        r
    }

    /// The symbols of the transitions, each once, in order of first declaration.
    pub fn alphabet(&self) -> (r: &Vec<char>)
        ensures
            r@ == self.model().alphabet,
            !r@.contains(crate::data::EPSILON),
    {
        proof {
            use_type_invariant(self);
            crate::data::lemma_alphabet_without_epsilon(self.transitions@);
        }
        &self.alphabet
    }
}

} // verus!
