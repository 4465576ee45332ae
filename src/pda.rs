//! Pushdown automata with one stack.
use vstd::prelude::*;
use crate::data::{
    AutomatonData, ConstructionError, VertexId, finals_of, starts_of, distinct_in_order,
    declared_states,
};
use crate::dfa::{DfaModel, lookup, run, dfa_accepts};
use crate::nfa::deterministic;
use crate::data::{Transition, EPSILON};
use crate::pushdown::{
    Config, BOTTOM, EPSILON_DEPTH, closure, successors, moves_from, fires, apply, configs_after,
    initial, bottoms, accepting, config_accepts, all_empty,
    MoveModel, StackMove, moves_view, move_symbols, machine_accepts, push_move, run_machine,
    initial_configs, any_accepting, move_entries, move_entries_exec,
};
use crate::describe::{described, describe_with_starts};
use crate::text::{chars_of, split_on, split_chars, parse_symbol, parse_symbol_chars, copy_chars};

verus! {

/// What a PDA is, mathematically.
pub struct PdaModel {
    pub moves: Seq<MoveModel>,
    pub finals: Seq<VertexId>,
    pub starts: Seq<VertexId>,
    pub alphabet: Seq<char>,
}

/// The move that an edge labelled `symbol,pop,push` declares; parts after the
/// third are ignored, and a label of fewer parts declares none.
pub open spec fn pda_move(s: VertexId, t: VertexId, label: Seq<char>) -> Option<MoveModel> {
    let parts = split_on(label, ',');
    if parts.len() >= 3 {
        Some(
            MoveModel {
                source: s,
                symbol: parse_symbol(parts[0]),
                pops: seq![parse_symbol(parts[1])],
                target: t,
                pushes: seq![parts[2]],
            },
        )
    } else {
        None
    }
}

/// The moves that a description declares, in order.
pub open spec fn pda_moves(data: Seq<AutomatonData>) -> Seq<MoveModel>
    decreases data.len(),
{
    if data.len() == 0 {
        Seq::empty()
    } else {
        let rest = pda_moves(data.drop_last());
        match data.last() {
            AutomatonData::Edge(s, t, label) => match pda_move(s, t, label@) {
                Some(m) => rest.push(m),
                None => rest,
            },
            _ => rest,
        }
    }
}

/// The PDA that a description builds, when it builds one.
pub open spec fn pda_of(data: Seq<AutomatonData>) -> PdaModel {
    PdaModel {
        moves: pda_moves(data),
        finals: finals_of(data),
        starts: starts_of(data),
        alphabet: distinct_in_order(move_symbols(pda_moves(data))),
    }
}

/// Whether the PDA accepts `w`, starting each start state with the bottom marker
/// on its stack.
pub open spec fn pda_accepts(m: PdaModel, w: Seq<char>) -> bool {
    machine_accepts(m.moves, m.starts, m.finals, 1, w)
}

/// A pushdown automaton with one stack.
pub struct PDA {
    moves: Vec<StackMove>,
    alphabet: Vec<char>,
    final_states: Vec<VertexId>,
    start_states: Vec<VertexId>,
}

impl PDA {
    /// The alphabet is that of the moves.
    #[verifier::type_invariant]
    spec fn well_formed(&self) -> bool {
        self.alphabet@ == distinct_in_order(move_symbols(moves_view(self.moves@)))
    }

    /// What the automaton is, mathematically.
    pub closed spec fn model(&self) -> PdaModel {
        PdaModel {
            moves: moves_view(self.moves@),
            finals: self.final_states@,
            starts: self.start_states@,
            alphabet: self.alphabet@,
        }
    }
}

/// The move that an edge declares, if its label has the expected shape.
pub(crate) fn parse_pda_move(s: VertexId, t: VertexId, label: &String) -> (r: Option<StackMove>)
    ensures
        match r {
            Some(m) => pda_move(s, t, label@) == Some(m@),
            None => pda_move(s, t, label@) is None,
        },
{
    let parts = split_chars(&chars_of(label.as_str()), ',');
    if parts.len() < 3 {
        return None;
    }
    let mut pops: Vec<char> = Vec::new();
    pops.push(parse_symbol_chars(&parts[1]));
    let mut pushes: Vec<Vec<char>> = Vec::new();
    pushes.push(copy_chars(&parts[2]));
    let m = StackMove { source: s, symbol: parse_symbol_chars(&parts[0]), pops, target: t, pushes };
    proof {
        let parts_v = split_on(label@, ',');
        assert(parts@[1]@ == parts_v[1]);
        assert(m@.pops =~= seq![parse_symbol(parts_v[1])]);
        assert(m@.pushes =~= seq![parts_v[2]]);
    }
    Some(m)
}

impl PDA {
    /// Whether the automaton accepts `word`.
    ///
    /// Epsilon moves are followed from the start and after each symbol read, the
    /// last one included, until no new configuration appears, but at most
    /// `EPSILON_DEPTH` moves deep: epsilon moves that grow a stack without end would
    /// otherwise never stop. A run that needs a longer chain of epsilon moves at
    /// one place is not found.
    pub fn accepts(&self, word: &str) -> (r: bool)
        ensures
            r == pda_accepts(self.model(), word@),
    {
        let w = chars_of(word);
        let init = initial_configs(&self.start_states, 1);
        let reached = run_machine(&self.moves, init, &w);
        any_accepting(&reached, &self.final_states)
    }

    /// Builds the PDA that `data` describes.
    ///
    /// An edge whose label does not split into a symbol, a stack character and a
    /// string to push is left out.
    pub fn new(data: Vec<AutomatonData>) -> (r: Result<PDA, ConstructionError>)
        ensures
            starts_of(data@).len() == 0 ==> r == Err::<PDA, ConstructionError>(
                ConstructionError::MissingStartState,
            ),
            starts_of(data@).len() > 0 ==> (r matches Ok(p) && p.model() == pda_of(data@)),
    {
        let mut moves: Vec<StackMove> = Vec::new();
        let mut alphabet: Vec<char> = Vec::new();
        let mut i: usize = 0;
        while i < data.len()
            invariant
                i <= data.len(),
                moves_view(moves@) == pda_moves(data@.subrange(0, i as int)),
                alphabet@ == distinct_in_order(move_symbols(moves_view(moves@))),
            decreases data.len() - i,
        {
            assert(data@.subrange(0, i + 1).drop_last() =~= data@.subrange(0, i as int));
            match &data[i] {
                AutomatonData::Edge(s, t, label) => {
                    if let Some(m) = parse_pda_move(*s, *t, label) {
                        push_move(&mut moves, &mut alphabet, m);
                    }
                },
                _ => {},
            }
            i += 1;
        }
        assert(data@.subrange(0, data.len() as int) =~= data@);
        let (final_states, start_states) = declared_states(&data);
        if start_states.len() == 0 {
            return Err(ConstructionError::MissingStartState);
        }
        Ok(PDA { moves, alphabet, final_states, start_states })
    }

    /// A description of the automaton, in a fixed order: its final and start
    /// states, then each state with a move, in ascending order, with its moves.
    pub fn view(&self) -> (r: String)
        ensures
            described("Type: PDA"@, self.model().finals, self.model().starts, move_entries(self.model().moves), r@),
    {
        let es = move_entries_exec(&self.moves);
        describe_with_starts("Type: PDA", &self.final_states, &self.start_states, &es)
    }

    /// The symbols that the moves read, epsilon left out, each once, in order of
    /// first declaration.
    pub fn alphabet(&self) -> (r: &Vec<char>)
        ensures
            r@ == self.model().alphabet,
            !r@.contains(crate::data::EPSILON),
    {
        proof {
            use_type_invariant(self);
            crate::pushdown::lemma_machine_alphabet_without_epsilon(moves_view(self.moves@));
        }
        &self.alphabet
    }
}

/// Whether every move reads a symbol, pops the bottom marker and pushes it back:
/// the stack never changes.
pub open spec fn stack_neutral(ms: Seq<MoveModel>) -> bool {
    forall|i: int|
        0 <= i < ms.len() ==> #[trigger] ms[i].symbol != EPSILON && ms[i].pops == seq![BOTTOM]
            && ms[i].pushes == seq![seq![BOTTOM]]
}

/// The transitions of the finite automaton that the moves trace.
pub open spec fn traced(ms: Seq<MoveModel>) -> Seq<Transition> {
    ms.map_values(|m: MoveModel| (m.source, m.symbol, m.target))
}

/// The configurations that a DFA run stands for: its state over the bottom marker.
pub open spec fn run_configs(r: Option<VertexId>) -> Set<Config> {
    match r {
        Some(q) => set![(q, bottoms(1))],
        None => Set::empty(),
    }
}

proof fn lemma_no_epsilon_closure(ms: Seq<MoveModel>, cs: Set<Config>, n: nat)
    requires
        stack_neutral(ms),
    ensures
        closure(ms, cs, n) == cs,
    decreases n,
{
    if n > 0 {
        lemma_no_epsilon_closure(ms, cs, (n - 1) as nat);
        assert(successors(ms, cs, EPSILON) =~= Set::<Config>::empty()) by {
            assert forall|d: Config| !successors(ms, cs, EPSILON).contains(d) by {
                if successors(ms, cs, EPSILON).contains(d) {
                    let c = choose|c: Config| cs.contains(c) && #[trigger] moves_from(ms, c, EPSILON).contains(d);
                    let i = choose|i: int| 0 <= i < ms.len() && ms[i].symbol == EPSILON && fires(ms[i], c) && d == (ms[i].target, apply(ms[i], c.1));
                    assert(ms[i].symbol != EPSILON);
                }
            }
        }
        assert(cs.union(Set::<Config>::empty()) =~= cs);
    }
}

proof fn lemma_neutral_step(ms: Seq<MoveModel>, r: Option<VertexId>, c: char)
    requires
        stack_neutral(ms),
        deterministic(traced(ms)),
    ensures
        successors(ms, run_configs(r), c) == run_configs(match r {
            Some(p) => lookup(traced(ms), p, c),
            None => None,
        }),
{
    let ts = traced(ms);
    let b = bottoms(1);
    assert(b =~= seq![seq![BOTTOM]]);
    match r {
        None => {
            assert(successors(ms, run_configs(r), c) =~= Set::<Config>::empty());
        },
        Some(p) => {
            crate::nfa::lemma_lookup_witness(ts, p, c);
            let next = run_configs(lookup(ts, p, c));
            assert forall|d: Config| successors(ms, run_configs(r), c).contains(d) <==> next.contains(d) by {
                if successors(ms, run_configs(r), c).contains(d) {
                    let cf = choose|cf: Config| run_configs(r).contains(cf) && #[trigger] moves_from(ms, cf, c).contains(d);
                    let i = choose|i: int| 0 <= i < ms.len() && ms[i].symbol == c && fires(ms[i], cf) && d == (ms[i].target, apply(ms[i], cf.1));
                    assert(cf == (p, b));
                    assert(ts[i] == (p, c, ms[i].target));
                    assert(apply(ms[i], b) =~= b);
                    if let Some(t) = lookup(ts, p, c) {
                        let j = choose|j: int| 0 <= j < ts.len() && ts[j] == (p, c, t);
                        assert(ts[i].0 == ts[j].0);
                    }
                }
                if next.contains(d) {
                    let t = lookup(ts, p, c)->0;
                    let j = choose|j: int| 0 <= j < ts.len() && ts[j] == (p, c, t);
                    assert(ts[j] == (ms[j].source, ms[j].symbol, ms[j].target));
                    assert(ms[j].symbol != EPSILON && ms[j].pops == seq![BOTTOM]);
                    assert(fires(ms[j], (p, b)));
                    assert(apply(ms[j], b) =~= b);
                    assert(moves_from(ms, (p, b), c).contains(d));
                    assert(run_configs(r).contains((p, b)));
                }
            }
            assert(successors(ms, run_configs(r), c) =~= next);
        },
    }
}

proof fn lemma_neutral_run(ms: Seq<MoveModel>, s: VertexId, w: Seq<char>)
    requires
        stack_neutral(ms),
        deterministic(traced(ms)),
    ensures
        configs_after(ms, initial(seq![s], 1), w) == run_configs(run(traced(ms), s, w)),
    decreases w.len(),
{
    if w.len() == 0 {
        lemma_no_epsilon_closure(ms, initial(seq![s], 1), EPSILON_DEPTH as nat);
        assert(initial(seq![s], 1) =~= run_configs(Some(s))) by {
            assert forall|cf: Config| initial(seq![s], 1).contains(cf) implies cf == (s, bottoms(1)) by {
                let i = choose|i: int| 0 <= i < 1 && cf == (seq![s][i], bottoms(1));
            }
            assert(initial(seq![s], 1).contains((s, bottoms(1)))) by {
                assert((s, bottoms(1)) == (seq![s][0], bottoms(1)));
            }
        }
    } else {
        lemma_neutral_run(ms, s, w.drop_last());
        let prev = configs_after(ms, initial(seq![s], 1), w.drop_last());
        lemma_neutral_step(ms, run(traced(ms), s, w.drop_last()), w.last());
        lemma_no_epsilon_closure(ms, successors(ms, prev, w.last()), EPSILON_DEPTH as nat);
    }
}

/// A PDA whose moves never change the stack, with one start state and at most one
/// move per state and symbol, accepts exactly what the DFA with the same
/// transitions, start state and final states accepts. Without a final state both
/// accept nothing: the stack keeps its bottom marker.
pub proof fn lemma_pda_matches_dfa(p: PdaModel, d: DfaModel, w: Seq<char>)
    requires
        stack_neutral(p.moves),
        deterministic(traced(p.moves)),
        d.transitions == traced(p.moves),
        p.starts == seq![d.start],
        p.finals == d.finals,
    ensures
        pda_accepts(p, w) == dfa_accepts(d, w),
{
    lemma_neutral_run(p.moves, d.start, w);
    let reached = configs_after(p.moves, initial(p.starts, 1), w);
    assert(!all_empty(bottoms(1))) by {
        assert(bottoms(1)[0].len() == 1);
    }
    match run(d.transitions, d.start, w) {
        Some(q) => {
            assert(reached.contains((q, bottoms(1))));
            if d.finals.contains(q) {
                assert(config_accepts((q, bottoms(1)), p.finals));
            }
            if accepting(reached, p.finals) {
                let cf = choose|cf: Config| reached.contains(cf) && config_accepts(cf, p.finals);
                assert(cf == (q, bottoms(1)));
            }
        },
        None => {
            assert(!accepting(reached, p.finals));
        },
    }
}

} // verus!
