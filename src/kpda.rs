//! Pushdown automata with a fixed number of stacks.
use vstd::prelude::*;
use crate::data::{
    AutomatonData, ConstructionError, VertexId, finals_of, starts_of, distinct_in_order,
    declared_states,
};
use crate::pushdown::{
    MoveModel, StackMove, moves_view, move_symbols, machine_accepts, push_move, run_machine,
    initial_configs, any_accepting, move_entries, move_entries_exec,
};
use crate::describe::{described, describe_with_starts};
use crate::pda::{pda_move, pda_moves, pda_of, pda_accepts};
use crate::text::{chars_of, split_on, split_chars, parse_symbol, parse_symbol_chars, copy_chars};

verus! {

/// What a KPDA is, mathematically.
pub struct KpdaModel {
    pub moves: Seq<MoveModel>,
    pub finals: Seq<VertexId>,
    pub starts: Seq<VertexId>,
    /// The number of stacks.
    pub k: nat,
    pub alphabet: Seq<char>,
}

/// The move that an edge labelled `symbol,pop_1,push_1,...,pop_k,push_k` declares;
/// a label without at least one pair, or with an unpaired part, declares none.
pub open spec fn kpda_move(s: VertexId, t: VertexId, label: Seq<char>) -> Option<MoveModel> {
    let parts = split_on(label, ',');
    if parts.len() >= 3 && (parts.len() - 1) % 2 == 0 {
        let k = (parts.len() - 1) / 2;
        Some(
            MoveModel {
                source: s,
                symbol: parse_symbol(parts[0]),
                pops: Seq::new(k as nat, |j: int| parse_symbol(parts[1 + 2 * j])),
                target: t,
                pushes: Seq::new(k as nat, |j: int| parts[2 + 2 * j]),
            },
        )
    } else {
        None
    }
}

/// The moves that a description declares, in order.
pub open spec fn kpda_moves(data: Seq<AutomatonData>) -> Seq<MoveModel>
    decreases data.len(),
{
    if data.len() == 0 {
        Seq::empty()
    } else {
        let rest = kpda_moves(data.drop_last());
        match data.last() {
            AutomatonData::Edge(s, t, label) => match kpda_move(s, t, label@) {
                Some(m) => rest.push(m),
                None => rest,
            },
            _ => rest,
        }
    }
}

/// The number of stacks: that of the first move, or one where there is none.
pub open spec fn arity(ms: Seq<MoveModel>) -> nat {
    if ms.len() == 0 {
        1
    } else {
        ms[0].pops.len()
    }
}

/// Whether every move works on the same number of stacks.
pub open spec fn uniform(ms: Seq<MoveModel>) -> bool {
    forall|i: int| 0 <= i < ms.len() ==> #[trigger] ms[i].pops.len() == arity(ms)
}

/// The KPDA that a description builds, when it builds one.
pub open spec fn kpda_of(data: Seq<AutomatonData>) -> KpdaModel {
    KpdaModel {
        moves: kpda_moves(data),
        finals: finals_of(data),
        starts: starts_of(data),
        k: arity(kpda_moves(data)),
        alphabet: distinct_in_order(move_symbols(kpda_moves(data))),
    }
}

/// Whether the KPDA accepts `w`, starting each start state with the bottom marker
/// on each of its stacks.
pub open spec fn kpda_accepts(m: KpdaModel, w: Seq<char>) -> bool {
    machine_accepts(m.moves, m.starts, m.finals, m.k, w)
}

/// A pushdown automaton with `k` stacks.
pub struct KPDA {
    moves: Vec<StackMove>,
    alphabet: Vec<char>,
    final_states: Vec<VertexId>,
    start_states: Vec<VertexId>,
    k: usize,
}

impl KPDA {
    /// The alphabet is that of the moves.
    #[verifier::type_invariant]
    spec fn well_formed(&self) -> bool {
        self.alphabet@ == distinct_in_order(move_symbols(moves_view(self.moves@)))
    }

    /// What the automaton is, mathematically.
    pub closed spec fn model(&self) -> KpdaModel {
        KpdaModel {
            moves: moves_view(self.moves@),
            finals: self.final_states@,
            starts: self.start_states@,
            k: self.k as nat,
            alphabet: self.alphabet@,
        }
    }
}

/// The move that an edge declares, if its label has the expected shape.
pub(crate) fn parse_kpda_move(s: VertexId, t: VertexId, label: &String) -> (r: Option<StackMove>)
    ensures
        match r {
            Some(m) => kpda_move(s, t, label@) == Some(m@),
            None => kpda_move(s, t, label@) is None,
        },
{
    let parts = split_chars(&chars_of(label.as_str()), ',');
    if parts.len() < 3 || (parts.len() - 1) % 2 != 0 {
        return None;
    }
    let k = (parts.len() - 1) / 2;
    let ghost parts_v = split_on(label@, ',');
    let mut pops: Vec<char> = Vec::new();
    let mut pushes: Vec<Vec<char>> = Vec::new();
    let mut j: usize = 0;
    while j < k
        invariant
            j <= k,
            k == (parts.len() - 1) / 2,
            parts.len() >= 3,
            (parts.len() - 1) % 2 == 0,
            parts_v.len() == parts.len(),
            forall|i: int| 0 <= i < parts@.len() ==> #[trigger] parts@[i]@ == parts_v[i],
            pops@ =~= Seq::new(j as nat, |x: int| parse_symbol(parts_v[1 + 2 * x])),
            crate::pushdown::stacks_view(pushes@) =~= Seq::new(j as nat, |x: int| parts_v[2 + 2 * x]),
        decreases k - j,
    {
        pops.push(parse_symbol_chars(&parts[1 + 2 * j]));
        let p = copy_chars(&parts[2 + 2 * j]);
        proof { crate::pushdown::lemma_stacks_view_push(pushes@, p); }
        pushes.push(p);
        j += 1;
    }
    let m = StackMove { source: s, symbol: parse_symbol_chars(&parts[0]), pops, target: t, pushes };
    Some(m)
}

impl KPDA {
    /// Whether the automaton accepts `word`.
    ///
    /// Epsilon moves are followed from the start and after each symbol read, the
    /// last one included, until no new configuration appears, but at most
    /// `EPSILON_DEPTH` moves deep: epsilon moves that grow a stack without end would
    /// otherwise never stop. A run that needs a longer chain of epsilon moves at
    /// one place is not found.
    pub fn accepts(&self, word: &str) -> (r: bool)
        ensures
            r == kpda_accepts(self.model(), word@),
    {
        let w = chars_of(word);
        let init = initial_configs(&self.start_states, self.k);
        let reached = run_machine(&self.moves, init, &w);
        any_accepting(&reached, &self.final_states)
    }

    /// Builds the KPDA that `data` describes.
    ///
    /// The first well-formed edge fixes the number of stacks; an edge whose label
    /// has no well-formed shape is left out.
    pub fn new(data: Vec<AutomatonData>) -> (r: Result<KPDA, ConstructionError>)
        ensures
            !uniform(kpda_moves(data@)) ==> r == Err::<KPDA, ConstructionError>(
                ConstructionError::ArityMismatch,
            ),
            uniform(kpda_moves(data@)) && starts_of(data@).len() == 0 ==> r == Err::<
                KPDA,
                ConstructionError,
            >(ConstructionError::MissingStartState),
            uniform(kpda_moves(data@)) && starts_of(data@).len() > 0 ==> (r matches Ok(p) && p.model()
                == kpda_of(data@)),
    {
        let mut moves: Vec<StackMove> = Vec::new();
        let mut alphabet: Vec<char> = Vec::new();
        let mut k: usize = 1;
        let mut i: usize = 0;
        while i < data.len()
            invariant
                i <= data.len(),
                moves_view(moves@) == kpda_moves(data@.subrange(0, i as int)),
                alphabet@ == distinct_in_order(move_symbols(moves_view(moves@))),
                k == arity(moves_view(moves@)),
                uniform(moves_view(moves@)),
            decreases data.len() - i,
        {
            assert(data@.subrange(0, i + 1).drop_last() =~= data@.subrange(0, i as int));
            match &data[i] {
                AutomatonData::Edge(s, t, label) => {
                    if let Some(m) = parse_kpda_move(*s, *t, label) {
                        let ghost before = moves_view(moves@);
                        let first = moves.len() == 0;
                        let mk = m.pops.len();
                        if !first && mk != k {
                            proof {
                                let after = before.push(m@);
                                assert(after[after.len() - 1].pops.len() != arity(after));
                                lemma_not_uniform_stays(data@, i as int + 1, after.len() - 1);
                            }
                            return Err(ConstructionError::ArityMismatch);
                        }
                        push_move(&mut moves, &mut alphabet, m);
                        k = mk;
                        assert(moves_view(moves@)[0] == if first { m@ } else { before[0] });
                    }
                },
                _ => {},
            }
            i += 1;
        }
        assert(data@.subrange(0, data.len() as int) =~= data@);
        let (final_states, start_states) = declared_states(&data);
        if start_states.len() == 0 {
            return Err(ConstructionError::MissingStartState);
        }
        Ok(KPDA { moves, alphabet, final_states, start_states, k })
    }

    /// A description of the automaton, in a fixed order: its final and start
    /// states, then each state with a move, in ascending order, with its moves.
    pub fn view(&self) -> (r: String)
        ensures
            described("Type: KPDA"@, self.model().finals, self.model().starts, move_entries(self.model().moves), r@),
    {
        let es = move_entries_exec(&self.moves);
        describe_with_starts("Type: KPDA", &self.final_states, &self.start_states, &es)
    }

    /// The symbols that the moves read, epsilon left out, each once, in order of
    /// first declaration.
    pub fn alphabet(&self) -> (r: &Vec<char>)
        ensures
            r@ == self.model().alphabet,
            !r@.contains(crate::data::EPSILON),
    {
        proof {
            use_type_invariant(self);
            crate::pushdown::lemma_machine_alphabet_without_epsilon(moves_view(self.moves@));
        }
        &self.alphabet
    }
}

/// The moves of a prefix of a description stay a prefix of its moves.
proof fn lemma_moves_prefix(data: Seq<AutomatonData>, n: int)
    requires
        0 <= n <= data.len(),
    ensures
        kpda_moves(data.subrange(0, n)).len() <= kpda_moves(data).len(),
        forall|i: int| 0 <= i < kpda_moves(data.subrange(0, n)).len() ==> #[trigger] kpda_moves(data.subrange(0, n))[i] == kpda_moves(data)[i],
    decreases data.len() - n,
{
    if n < data.len() {
        lemma_moves_prefix(data, n + 1);
        assert(data.subrange(0, n + 1).drop_last() =~= data.subrange(0, n));
        let a = kpda_moves(data.subrange(0, n));
        let b = kpda_moves(data.subrange(0, n + 1));
        assert(b == a || b == a.push(b.last()));
        assert forall|i: int| 0 <= i < a.len() implies #[trigger] a[i] == kpda_moves(data)[i] by {
            assert(a[i] == b[i]);
        }
    } else {
        assert(data.subrange(0, n) =~= data);
    }
}

/// A move of another arity in a prefix makes the whole description non-uniform.
proof fn lemma_not_uniform_stays(data: Seq<AutomatonData>, n: int, j: int)
    requires
        0 <= n <= data.len(),
        0 <= j < kpda_moves(data.subrange(0, n)).len(),
        kpda_moves(data.subrange(0, n))[j].pops.len() != arity(kpda_moves(data.subrange(0, n))),
    ensures
        !uniform(kpda_moves(data)),
{
    lemma_moves_prefix(data, n);
    let pre = kpda_moves(data.subrange(0, n));
    let all = kpda_moves(data);
    assert(pre[0] == all[0]);
    assert(pre[j] == all[j]);
}

/// Whether every edge label of `data` splits into at most three comma-separated parts.
pub open spec fn single_stack_labels(data: Seq<AutomatonData>) -> bool {
    forall|i: int|
        0 <= i < data.len() ==> match #[trigger] data[i] {
            AutomatonData::Edge(_, _, label) => split_on(label@, ',').len() <= 3,
            _ => true,
        }
}

proof fn lemma_same_moves(data: Seq<AutomatonData>)
    requires
        single_stack_labels(data),
    ensures
        kpda_moves(data) == pda_moves(data),
        forall|i: int| 0 <= i < pda_moves(data).len() ==> #[trigger] pda_moves(data)[i].pops.len() == 1,
    decreases data.len(),
{
    if data.len() > 0 {
        let rest = data.drop_last();
        assert forall|i: int| 0 <= i < rest.len() implies match #[trigger] rest[i] {
            AutomatonData::Edge(_, _, label) => split_on(label@, ',').len() <= 3,
            _ => true,
        } by {
            assert(rest[i] == data[i]);
        }
        lemma_same_moves(rest);
        match data.last() {
            AutomatonData::Edge(s, t, label) => {
                assert(data[data.len() - 1] == data.last());
                let parts = split_on(label@, ',');
                if parts.len() == 3 {
                    let a = kpda_move(s, t, label@)->0;
                    let b = pda_move(s, t, label@)->0;
                    assert(a.pops =~= b.pops);
                    assert(a.pushes =~= b.pushes);
                }
            },
            _ => {},
        }
    }
}

/// A KPDA of one stack built from a description whose labels name one stack
/// accepts exactly what the PDA built from the same description accepts, and is
/// refused on the same descriptions.
pub proof fn lemma_pda_matches_kpda(data: Seq<AutomatonData>, w: Seq<char>)
    requires
        single_stack_labels(data),
    ensures
        uniform(kpda_moves(data)),
        kpda_of(data).k == 1,
        kpda_accepts(kpda_of(data), w) == pda_accepts(pda_of(data), w),
{
    lemma_same_moves(data);
    let ms = pda_moves(data);
    if ms.len() > 0 {
        assert(ms[0].pops.len() == 1);
    }
}

} // verus!
