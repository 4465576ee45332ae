//! The intermediate description from which every automaton is built.
use vstd::prelude::*;
use crate::text::chars_of;

verus! {

/// A handle naming one state of an automaton.
pub type VertexId = u32;

/// The symbol that stands for a move that reads no input.
pub const EPSILON: char = ' ';

/// One declaration of an automaton description.
pub enum AutomatonData {
    /// A transition from the first state to the second, with its label.
    Edge(VertexId, VertexId, String),
    /// A final (accepting) state.
    Final(VertexId),
    /// A start state.
    Start(VertexId),
}

/// What aborts the construction of an automaton.
#[derive(Debug, Clone, Copy, PartialEq, Eq, Structural)]
pub enum ConstructionError {
    /// No transition could be recorded.
    NoStates,
    /// No start state was declared.
    MissingStartState,
    /// Two transitions work on different numbers of stacks.
    ArityMismatch,
}

/// The states declared final, in order of declaration.
pub open spec fn finals_of(data: Seq<AutomatonData>) -> Seq<VertexId>
    decreases data.len(),
{
    if data.len() == 0 {
        Seq::empty()
    } else {
        let rest = finals_of(data.drop_last());
        match data.last() {
            AutomatonData::Final(id) => rest.push(id),
            _ => rest,
        }
    }
}

/// The states declared start states, in order of declaration.
pub open spec fn starts_of(data: Seq<AutomatonData>) -> Seq<VertexId>
    decreases data.len(),
{
    if data.len() == 0 {
        Seq::empty()
    } else {
        let rest = starts_of(data.drop_last());
        match data.last() {
            AutomatonData::Start(id) => rest.push(id),
            _ => rest,
        }
    }
}

/// Collects the final and the start states of a description.
pub fn declared_states(data: &Vec<AutomatonData>) -> (r: (Vec<VertexId>, Vec<VertexId>))
    ensures
        r.0@ == finals_of(data@),
        r.1@ == starts_of(data@),
{
    let mut finals: Vec<VertexId> = Vec::new();
    let mut starts: Vec<VertexId> = Vec::new();
    let mut i: usize = 0;
    while i < data.len()
        invariant
            i <= data.len(),
            finals@ == finals_of(data@.subrange(0, i as int)),
            starts@ == starts_of(data@.subrange(0, i as int)),
        decreases data.len() - i,
    {
        assert(data@.subrange(0, i + 1).drop_last() =~= data@.subrange(0, i as int));
        match &data[i] {
            AutomatonData::Final(id) => finals.push(*id),
            AutomatonData::Start(id) => starts.push(*id),
            _ => {},
        }
        i += 1;
    }
    assert(data@.subrange(0, data.len() as int) =~= data@);
    (finals, starts)
}


/// `s` with every repeated element left out, first occurrences kept in order.
pub open spec fn distinct_in_order(s: Seq<char>) -> Seq<char>
    decreases s.len(),
{
    if s.len() == 0 {
        Seq::empty()
    } else {
        let rest = distinct_in_order(s.drop_last());
        if rest.contains(s.last()) {
            rest
        } else {
            rest.push(s.last())
        }
    }
}

/// Appends `c` to an alphabet unless it is already there.
pub(crate) fn add_symbol(alphabet: &mut Vec<char>, c: char, Ghost(seen): Ghost<Seq<char>>)
    requires
        old(alphabet)@ == distinct_in_order(seen),
    ensures
        final(alphabet)@ == distinct_in_order(seen.push(c)),
{
    assert(seen.push(c).drop_last() =~= seen);
    if !crate::text::contains_char(alphabet, c) {
        alphabet.push(c);
    }
}

/// One transition: source state, symbol, target state.
pub type Transition = (VertexId, char, VertexId);

/// The transitions that a description declares with a one-character label, in
/// order; a label that is the epsilon symbol names no input and gives none.
pub open spec fn labelled_edges(data: Seq<AutomatonData>) -> Seq<Transition>
    decreases data.len(),
{
    if data.len() == 0 {
        Seq::empty()
    } else {
        let rest = labelled_edges(data.drop_last());
        match data.last() {
            AutomatonData::Edge(s, t, label) => if label@.len() == 1 && label@[0] != EPSILON {
                rest.push((s, label@[0], t))
            } else {
                rest
            },
            _ => rest,
        }
    }
}

/// The symbols of a sequence of transitions, in order.
pub open spec fn edge_symbols(ts: Seq<Transition>) -> Seq<char> {
    ts.map_values(|t: Transition| t.1)
}

/// Every element of `distinct_in_order(s)` occurs in `s`.
pub proof fn lemma_distinct_from(s: Seq<char>, c: char)
    requires
        distinct_in_order(s).contains(c),
    ensures
        s.contains(c),
    decreases s.len(),
{
    if s.len() > 0 {
        let rest = distinct_in_order(s.drop_last());
        if rest.contains(c) {
            lemma_distinct_from(s.drop_last(), c);
            let i = choose|i: int| 0 <= i < s.drop_last().len() && s.drop_last()[i] == c;
            assert(s[i] == c);
        } else {
            assert(s[s.len() - 1] == c);
        }
    }
}

proof fn lemma_labelled_no_epsilon(data: Seq<AutomatonData>)
    ensures
        forall|i: int| 0 <= i < labelled_edges(data).len() ==> #[trigger] labelled_edges(data)[i].1 != EPSILON,
    decreases data.len(),
{
    if data.len() > 0 {
        lemma_labelled_no_epsilon(data.drop_last());
        let rest = labelled_edges(data.drop_last());
        assert forall|i: int| 0 <= i < labelled_edges(data).len() implies #[trigger] labelled_edges(data)[i].1 != EPSILON by {
            if i < rest.len() {
                assert(labelled_edges(data)[i] == rest[i]);
            }
        }
    }
}

/// Whether no transition reads the epsilon symbol.
pub open spec fn epsilon_free(ts: Seq<Transition>) -> bool {
    forall|i: int| 0 <= i < ts.len() ==> #[trigger] ts[i].1 != EPSILON
}

/// The transitions of a description never read the epsilon symbol.
pub proof fn lemma_labelled_epsilon_free(data: Seq<AutomatonData>)
    ensures
        epsilon_free(labelled_edges(data)),
{
    lemma_labelled_no_epsilon(data);
}

/// The alphabet of transitions that read no epsilon holds no epsilon.
pub proof fn lemma_alphabet_without_epsilon(ts: Seq<Transition>)
    requires
        epsilon_free(ts),
    ensures
        !distinct_in_order(edge_symbols(ts)).contains(EPSILON),
{
    let syms = edge_symbols(ts);
    if distinct_in_order(syms).contains(EPSILON) {
        lemma_distinct_from(syms, EPSILON);
        let i = choose|i: int| 0 <= i < syms.len() && syms[i] == EPSILON;
        assert(ts[i].1 == EPSILON);
    }
}

/// How many edges a description declares.
pub open spec fn edge_count(data: Seq<AutomatonData>) -> nat
    decreases data.len(),
{
    if data.len() == 0 {
        0
    } else {
        edge_count(data.drop_last()) + match data.last() {
            AutomatonData::Edge(_, _, _) => 1nat,
            _ => 0nat,
        }
    }
}

/// The transitions with a one-character label other than epsilon, their symbols
/// each once in order, and how many edges there are in all.
pub(crate) fn collect_edges(data: &Vec<AutomatonData>) -> (r: (Vec<Transition>, Vec<char>, usize))
    ensures
        r.0@ == labelled_edges(data@),
        r.1@ == distinct_in_order(edge_symbols(labelled_edges(data@))),
        r.2 as nat == edge_count(data@),
{
    let mut transitions: Vec<Transition> = Vec::new();
    let mut alphabet: Vec<char> = Vec::new();
    let mut edges: usize = 0;
    let mut i: usize = 0;
    while i < data.len()
        invariant
            i <= data.len(),
            edges <= i,
            edges as nat == edge_count(data@.subrange(0, i as int)),
            transitions@ == labelled_edges(data@.subrange(0, i as int)),
            alphabet@ == distinct_in_order(edge_symbols(transitions@)),
        decreases data.len() - i,
    {
        assert(data@.subrange(0, i + 1).drop_last() =~= data@.subrange(0, i as int));
        match &data[i] {
            AutomatonData::Edge(s, t, label) => {
                edges += 1;
                let cs = chars_of(label.as_str());
                if cs.len() == 1 && cs[0] != EPSILON {
                    proof {
                        let ts = transitions@;
                        assert(edge_symbols(ts.push((*s, cs@[0], *t))) =~= edge_symbols(ts).push(
                            cs@[0],
                        ));
                    }
                    add_symbol(&mut alphabet, cs[0], Ghost(edge_symbols(transitions@)));
                    transitions.push((*s, cs[0], *t));
                }
            },
            _ => {},
        }
        i += 1;
    }
    assert(data@.subrange(0, data.len() as int) =~= data@);
    (transitions, alphabet, edges)
}

} // verus!
