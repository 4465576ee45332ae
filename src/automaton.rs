//! One type over the four kinds of automata, and how a kind is named.
use vstd::prelude::*;
use crate::data::{
    AutomatonData, ConstructionError, VertexId, EPSILON, labelled_edges, edge_count, starts_of,
    finals_of, declared_states,
};
use crate::describe::described;
use crate::dfa::{DFA, dfa_accepts, dfa_of, dfa_description};
use crate::nfa::{NFA, nfa_accepts, nfa_of, nfa_entries};
use crate::pushdown::move_entries;
use crate::pda::{PDA, pda_accepts, pda_of, pda_move, pda_moves, parse_pda_move};
use crate::kpda::{KPDA, kpda_accepts, kpda_of, kpda_move, kpda_moves, uniform, parse_kpda_move};
use crate::text::chars_of;

verus! {

/// An automaton of any of the supported kinds.
pub enum Automaton {
    DFA(DFA),
    NFA(NFA),
    PDA(PDA),
    KPDA(KPDA),
}

/// The kinds of automata.
#[derive(Debug, Clone, Copy, PartialEq, Eq, Structural)]
pub enum AutomatonType {
    DFA,
    NFA,
    PDA,
    KPDA,
}

impl Automaton {
    /// Whether the automaton accepts `w`.
    pub open spec fn spec_accepts(&self, w: Seq<char>) -> bool {
        match self {
            Automaton::DFA(a) => dfa_accepts(a.model(), w),
            Automaton::NFA(a) => nfa_accepts(a.model(), w),
            Automaton::PDA(a) => pda_accepts(a.model(), w),
            Automaton::KPDA(a) => kpda_accepts(a.model(), w),
        }
    }

    /// The automaton's alphabet.
    pub open spec fn spec_alphabet(&self) -> Seq<char> {
        match self {
            Automaton::DFA(a) => a.model().alphabet,
            Automaton::NFA(a) => a.model().alphabet,
            Automaton::PDA(a) => a.model().alphabet,
            Automaton::KPDA(a) => a.model().alphabet,
        }
    }

    /// Whether the automaton accepts `word`.
    pub fn accepts(&self, word: &str) -> (r: bool)
        ensures
            r == self.spec_accepts(word@),
    {
        match self {
            Automaton::DFA(a) => a.accepts(word),
            Automaton::NFA(a) => a.accepts(word),
            Automaton::PDA(a) => a.accepts(word),
            Automaton::KPDA(a) => a.accepts(word),
        }
    }

    /// The kind of the automaton.
    pub open spec fn kind(&self) -> AutomatonType {
        match self {
            Automaton::DFA(_) => AutomatonType::DFA,
            Automaton::NFA(_) => AutomatonType::NFA,
            Automaton::PDA(_) => AutomatonType::PDA,
            Automaton::KPDA(_) => AutomatonType::KPDA,
        }
    }

    /// A description of the automaton, in a fixed order.
    pub fn view(&self) -> (r: String)
        ensures
            match self {
                Automaton::DFA(a) => dfa_description(a.model(), r@),
                Automaton::NFA(a) => described("Type: NFA"@, a.model().finals, a.model().starts, nfa_entries(a.model().transitions), r@),
                Automaton::PDA(a) => described("Type: PDA"@, a.model().finals, a.model().starts, move_entries(a.model().moves), r@),
                Automaton::KPDA(a) => described("Type: KPDA"@, a.model().finals, a.model().starts, move_entries(a.model().moves), r@),
            },
    {
        match self {
            Automaton::DFA(a) => a.view(),
            Automaton::NFA(a) => a.view(),
            Automaton::PDA(a) => a.view(),
            Automaton::KPDA(a) => a.view(),
        }
    }

    /// The symbols of the automaton's transitions, each once, in order of first
    /// declaration.
    pub fn alphabet(&self) -> (r: &Vec<char>)
        ensures
            r@ == self.spec_alphabet(),
            !r@.contains(EPSILON),
    {
        match self {
            Automaton::DFA(a) => a.alphabet(),
            Automaton::NFA(a) => a.alphabet(),
            Automaton::PDA(a) => a.alphabet(),
            Automaton::KPDA(a) => a.alphabet(),
        }
    }
}

/// Whether `c` is `d`, or the ASCII capital letter of `d`.
pub open spec fn same_letter(c: char, d: char) -> bool {
    c == d || ('A' <= c <= 'Z' && (c as u32) + 32 == d as u32)
}

/// Whether `s` equals the lower-case ASCII text `t` without regard to ASCII case.
pub open spec fn same_ignoring_case(s: Seq<char>, t: Seq<char>) -> bool {
    s.len() == t.len() && forall|i: int| 0 <= i < s.len() ==> same_letter(#[trigger] s[i], t[i])
}

/// Whether `t` occurs in `s` at position `i`, without regard to ASCII case.
pub open spec fn occurs_at(s: Seq<char>, t: Seq<char>, i: int) -> bool {
    0 <= i && i + t.len() <= s.len() && same_ignoring_case(s.subrange(i, i + t.len()), t)
}

/// Whether `t` occurs in `s`, without regard to ASCII case.
pub open spec fn occurs_in(s: Seq<char>, t: Seq<char>) -> bool {
    exists|i: int| occurs_at(s, t, i)
}

fn same_letter_exec(c: char, d: char) -> (r: bool)
    ensures
        r == same_letter(c, d),
{
    c == d || ('A' <= c && c <= 'Z' && (c as u32) + 32 == d as u32)
}

/// Whether `t` occurs in `s` at position `i`, without regard to ASCII case.
fn occurs_at_exec(s: &Vec<char>, t: &Vec<char>, i: usize) -> (r: bool)
    ensures
        r == occurs_at(s@, t@, i as int),
{
    if i > s.len() || t.len() > s.len() - i {
        return false;
    }
    let mut j: usize = 0;
    while j < t.len()
        invariant
            j <= t.len(),
            i + t.len() <= s.len(),
            forall|x: int| 0 <= x < j ==> same_letter(s@[i + x], t@[x]),
        decreases t.len() - j,
    {
        if !same_letter_exec(s[i + j], t[j]) {
            assert(s@.subrange(i as int, i + t.len())[j as int] == s@[i + j]);
            return false;
        }
        j += 1;
    }
    assert forall|x: int| 0 <= x < t.len() implies same_letter(
        #[trigger] s@.subrange(i as int, i + t.len())[x],
        t@[x],
    ) by {
        assert(s@.subrange(i as int, i + t.len())[x] == s@[i + x]);
    }
    true
}

/// Whether `t` occurs in `s`, without regard to ASCII case.
pub(crate) fn occurs_in_exec(s: &Vec<char>, t: &Vec<char>) -> (r: bool)
    ensures
        r == occurs_in(s@, t@),
{
    let mut i: usize = 0;
    while i < s.len()
        invariant
            i <= s.len(),
            forall|x: int| 0 <= x < i ==> !occurs_at(s@, t@, x),
        decreases s.len() - i,
    {
        if occurs_at_exec(s, t, i) {
            return true;
        }
        i += 1;
    }
    if occurs_at_exec(s, t, i) {
        return true;
    }
    assert forall|x: int| !occurs_at(s@, t@, x) by {
        if 0 <= x && x <= i {
        }
    }
    false
}

/// The kind that a type name gives.
pub open spec fn type_named(s: Seq<char>) -> Option<AutomatonType> {
    if same_ignoring_case(s, seq!['d', 'f', 'a']) {
        Some(AutomatonType::DFA)
    } else if same_ignoring_case(s, seq!['n', 'f', 'a']) {
        Some(AutomatonType::NFA)
    } else if same_ignoring_case(s, seq!['p', 'd', 'a']) {
        Some(AutomatonType::PDA)
    } else if same_ignoring_case(s, seq!['k', 'p', 'd', 'a']) {
        Some(AutomatonType::KPDA)
    } else {
        None
    }
}

fn word3(a: char, b: char, c: char) -> (r: Vec<char>)
    ensures
        r@ == seq![a, b, c],
{
    let mut r: Vec<char> = Vec::new();
    r.push(a);
    r.push(b);
    r.push(c);
    assert(r@ =~= seq![a, b, c]);
    r
}

fn same_ignoring_case_exec(s: &Vec<char>, t: &Vec<char>) -> (r: bool)
    ensures
        r == same_ignoring_case(s@, t@),
{
    if s.len() != t.len() {
        return false;
    }
    let r = occurs_at_exec(s, t, 0);
    assert(s@.subrange(0, t.len() as int) =~= s@);
    r
}

/// The kind named by `typestr` ("dfa", "nfa", "pda" or "kpda", in any ASCII case),
/// or `None` for any other name.
pub fn determine_automaton_type(typestr: &str) -> (r: Option<AutomatonType>)
    ensures
        r == type_named(typestr@),
{
    let s = chars_of(typestr);
    let mut kpda = word3('p', 'd', 'a');
    kpda.insert(0, 'k');
    assert(kpda@ =~= seq!['k', 'p', 'd', 'a']);
    if same_ignoring_case_exec(&s, &word3('d', 'f', 'a')) {
        Some(AutomatonType::DFA)
    } else if same_ignoring_case_exec(&s, &word3('n', 'f', 'a')) {
        Some(AutomatonType::NFA)
    } else if same_ignoring_case_exec(&s, &word3('p', 'd', 'a')) {
        Some(AutomatonType::PDA)
    } else if same_ignoring_case_exec(&s, &kpda) {
        Some(AutomatonType::KPDA)
    } else {
        None
    }
}

/// The first of "dfa", "nfa" and "pda" that occurs in `s` without regard to ASCII case.
pub open spec fn type_in_path(s: Seq<char>) -> Option<Seq<char>> {
    if occurs_in(s, seq!['d', 'f', 'a']) {
        Some(seq!['d', 'f', 'a'])
    } else if occurs_in(s, seq!['n', 'f', 'a']) {
        Some(seq!['n', 'f', 'a'])
    } else if occurs_in(s, seq!['p', 'd', 'a']) {
        Some(seq!['p', 'd', 'a'])
    } else {
        None
    }
}

/// The type name that a file path suggests: the first of "dfa", "nfa" and "pda"
/// that occurs in it without regard to ASCII case, or `None` if none does.
pub fn path_to_automaton_type(filepath: &str) -> (r: Option<String>)
    ensures
        match r {
            Some(t) => type_in_path(filepath@) == Some(t@),
            None => type_in_path(filepath@) is None,
        },
{
    let s = chars_of(filepath);
    let candidates = [word3('d', 'f', 'a'), word3('n', 'f', 'a'), word3('p', 'd', 'a')];
    if occurs_in_exec(&s, &candidates[0]) {
        Some(crate::text::string_of(&candidates[0]))
    } else if occurs_in_exec(&s, &candidates[1]) {
        Some(crate::text::string_of(&candidates[1]))
    } else if occurs_in_exec(&s, &candidates[2]) {
        Some(crate::text::string_of(&candidates[2]))
    } else {
        None
    }
}

/// Why a description builds no DFA, if it does not.
pub open spec fn dfa_error(data: Seq<AutomatonData>) -> Option<ConstructionError> {
    if edge_count(data) == 0 {
        Some(ConstructionError::NoStates)
    } else if starts_of(data).len() == 0 {
        Some(ConstructionError::MissingStartState)
    } else {
        None
    }
}

/// Why a description builds no NFA or PDA, if it does not.
pub open spec fn nfa_error(data: Seq<AutomatonData>) -> Option<ConstructionError> {
    if starts_of(data).len() == 0 {
        Some(ConstructionError::MissingStartState)
    } else {
        None
    }
}

/// Why a description builds no KPDA, if it does not.
pub open spec fn kpda_error(data: Seq<AutomatonData>) -> Option<ConstructionError> {
    if !uniform(kpda_moves(data)) {
        Some(ConstructionError::ArityMismatch)
    } else if starts_of(data).len() == 0 {
        Some(ConstructionError::MissingStartState)
    } else {
        None
    }
}

/// Why a description builds no automaton of kind `kind`, if it does not.
pub open spec fn build_error(kind: AutomatonType, data: Seq<AutomatonData>) -> Option<ConstructionError> {
    match kind {
        AutomatonType::DFA => dfa_error(data),
        AutomatonType::NFA => nfa_error(data),
        AutomatonType::PDA => nfa_error(data),
        AutomatonType::KPDA => kpda_error(data),
    }
}

/// Whether `a` is the automaton of kind `kind` that `data` describes.
pub open spec fn built_from(a: Automaton, kind: AutomatonType, data: Seq<AutomatonData>) -> bool {
    match (a, kind) {
        (Automaton::DFA(d), AutomatonType::DFA) => d.model() == dfa_of(data),
        (Automaton::NFA(n), AutomatonType::NFA) => n.model() == nfa_of(data),
        (Automaton::PDA(p), AutomatonType::PDA) => p.model() == pda_of(data),
        (Automaton::KPDA(k), AutomatonType::KPDA) => k.model() == kpda_of(data),
        _ => false,
    }
}

/// Builds an automaton of kind `kind` from `data`.
pub fn build_automaton(kind: AutomatonType, data: Vec<AutomatonData>) -> (r: Result<Automaton, ConstructionError>)
    ensures
        match build_error(kind, data@) {
            Some(e) => r == Err::<Automaton, ConstructionError>(e),
            None => r matches Ok(a) && built_from(a, kind, data@),
        },
{
    match kind {
        AutomatonType::DFA => match DFA::new(data) {
            Ok(a) => Ok(Automaton::DFA(a)),
            Err(e) => Err(e),
        },
        AutomatonType::NFA => match NFA::new(data) {
            Ok(a) => Ok(Automaton::NFA(a)),
            Err(e) => Err(e),
        },
        AutomatonType::PDA => match PDA::new(data) {
            Ok(a) => Ok(Automaton::PDA(a)),
            Err(e) => Err(e),
        },
        AutomatonType::KPDA => match KPDA::new(data) {
            Ok(a) => Ok(Automaton::KPDA(a)),
            Err(e) => Err(e),
        },
    }
}

/// What construction tolerates but reports.
#[derive(Debug, Clone, Copy, PartialEq, Eq, Structural)]
pub enum ConstructionWarning {
    /// A DFA declares more than one start state; the last one is used.
    DuplicateStartState,
    /// No final state is declared.
    NoFinalStates,
    /// Some edge label does not have the shape the kind needs; such edges are left out.
    UnparseableLabel,
}

/// How many of a description's edges an automaton of kind `kind` keeps.
pub open spec fn kept_edges(kind: AutomatonType, data: Seq<AutomatonData>) -> nat {
    match kind {
        AutomatonType::DFA => labelled_edges(data).len(),
        AutomatonType::NFA => labelled_edges(data).len(),
        AutomatonType::PDA => pda_moves(data).len(),
        AutomatonType::KPDA => kpda_moves(data).len(),
    }
}

/// The warnings that building an automaton of kind `kind` from `data` gives, in
/// this order: a duplicate start state (for a DFA), no final state, an edge left out.
pub open spec fn warnings_of(kind: AutomatonType, data: Seq<AutomatonData>) -> Seq<ConstructionWarning> {
    (if kind == AutomatonType::DFA && starts_of(data).len() > 1 {
        seq![ConstructionWarning::DuplicateStartState]
    } else {
        Seq::empty()
    }) + (if finals_of(data).len() == 0 {
        seq![ConstructionWarning::NoFinalStates]
    } else {
        Seq::empty()
    }) + (if kept_edges(kind, data) < edge_count(data) {
        seq![ConstructionWarning::UnparseableLabel]
    } else {
        Seq::empty()
    })
}

/// Whether an automaton of kind `kind` keeps the edge `(s, t, label)`.
fn keeps_edge(kind: AutomatonType, s: VertexId, t: VertexId, label: &String) -> (r: bool)
    ensures
        r == match kind {
            AutomatonType::DFA => label@.len() == 1 && label@[0] != EPSILON,
            AutomatonType::NFA => label@.len() == 1 && label@[0] != EPSILON,
            AutomatonType::PDA => pda_move(s, t, label@) is Some,
            AutomatonType::KPDA => kpda_move(s, t, label@) is Some,
        },
{
    match kind {
        AutomatonType::DFA | AutomatonType::NFA => {
            let cs = chars_of(label.as_str());
            cs.len() == 1 && cs[0] != EPSILON
        },
        AutomatonType::PDA => parse_pda_move(s, t, label).is_some(),
        AutomatonType::KPDA => parse_kpda_move(s, t, label).is_some(),
    }
}

/// The warnings that building an automaton of kind `kind` from `data` gives.
pub fn construction_warnings(kind: AutomatonType, data: &Vec<AutomatonData>) -> (r: Vec<ConstructionWarning>)
    ensures
        r@ == warnings_of(kind, data@),
{
    let (finals, starts) = declared_states(data);
    let mut edges: usize = 0;
    let mut kept: usize = 0;
    let mut i: usize = 0;
    while i < data.len()
        invariant
            i <= data.len(),
            edges as nat == edge_count(data@.subrange(0, i as int)),
            kept as nat == kept_edges(kind, data@.subrange(0, i as int)),
            edges <= i,
            kept <= edges,
        decreases data.len() - i,
    {
        assert(data@.subrange(0, i + 1).drop_last() =~= data@.subrange(0, i as int));
        match &data[i] {
            AutomatonData::Edge(s, t, label) => {
                edges += 1;
                if keeps_edge(kind, *s, *t, label) {
                    kept += 1;
                }
            },
            _ => {},
        }
        i += 1;
    }
    assert(data@.subrange(0, data.len() as int) =~= data@);
    let mut r: Vec<ConstructionWarning> = Vec::new();
    if kind == AutomatonType::DFA && starts.len() > 1 {
        r.push(ConstructionWarning::DuplicateStartState);
    }
    if finals.len() == 0 {
        r.push(ConstructionWarning::NoFinalStates);
    }
    if kept < edges {
        r.push(ConstructionWarning::UnparseableLabel);
    }
    assert(r@ =~= warnings_of(kind, data@));
    r
}

} // verus!
