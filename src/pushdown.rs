//! The simulation shared by the pushdown automata: configurations of a state and
//! one or more stacks, moves that pop one character from each stack and push a
//! string onto each, and saturation under moves that read no input.
use vstd::prelude::*;
use crate::data::{VertexId, EPSILON};
use crate::text::{same_chars, chars_of};
use crate::describe::{Entry, entries_view, decimal, decimal_chars, append_chars};

verus! {

/// Epsilon moves are followed to at most this depth at each point of a run; the
/// saturation stops earlier as soon as no new configuration appears.
pub const EPSILON_DEPTH: usize = 64;

/// The character that each stack holds at the start.
pub const BOTTOM: char = '#';

/// The contents of the stacks; the top of each is its last character.
pub type Stacks = Seq<Seq<char>>;

/// A state together with the contents of its stacks.
pub type Config = (VertexId, Stacks);

/// What a move is, mathematically.
pub struct MoveModel {
    pub source: VertexId,
    pub symbol: char,
    pub pops: Seq<char>,
    pub target: VertexId,
    pub pushes: Seq<Seq<char>>,
}

/// A move: from `source`, reading `symbol` (or nothing, for `EPSILON`), with
/// `pops[i]` on top of stack `i`, to `target`, replacing each top by `pushes[i]`.
pub struct StackMove {
    pub source: VertexId,
    pub symbol: char,
    pub pops: Vec<char>,
    pub target: VertexId,
    pub pushes: Vec<Vec<char>>,
}

pub open spec fn stacks_view(s: Seq<Vec<char>>) -> Stacks {
    s.map_values(|v: Vec<char>| v@)
}

impl View for StackMove {
    type V = MoveModel;

    open spec fn view(&self) -> MoveModel {
        MoveModel {
            source: self.source,
            symbol: self.symbol,
            pops: self.pops@,
            target: self.target,
            pushes: stacks_view(self.pushes@),
        }
    }
}

pub open spec fn moves_view(ms: Seq<StackMove>) -> Seq<MoveModel> {
    ms.map_values(|m: StackMove| m@)
}

/// A configuration as the simulation holds it.
pub type ExecConfig = (VertexId, Vec<Vec<char>>);

pub open spec fn config_view(c: ExecConfig) -> Config {
    (c.0, stacks_view(c.1@))
}

/// The configurations that a list holds.
pub open spec fn config_set(cs: Seq<ExecConfig>) -> Set<Config> {
    Set::new(|d: Config| exists|i: int| 0 <= i < cs.len() && config_view(cs[i]) == d)
}

/// Whether move `m` can be taken from `c`, reading its symbol.
pub open spec fn fires(m: MoveModel, c: Config) -> bool {
    &&& m.source == c.0
    &&& m.pops.len() == c.1.len()
    &&& m.pushes.len() == c.1.len()
    &&& forall|i: int| 0 <= i < c.1.len() ==> #[trigger] c.1[i].len() > 0 && c.1[i].last() == m.pops[i]
}

/// The stacks after `m` has popped each top and pushed its strings.
pub open spec fn apply(m: MoveModel, s: Stacks) -> Stacks {
    Seq::new(s.len(), |i: int| s[i].drop_last() + m.pushes[i])
}

/// The configurations reached from `c` by one move on `sym`.
pub open spec fn moves_from(ms: Seq<MoveModel>, c: Config, sym: char) -> Set<Config> {
    Set::new(|d: Config| exists|i: int| 0 <= i < ms.len() && ms[i].symbol == sym && fires(ms[i], c) && d == (ms[i].target, apply(ms[i], c.1)))
}

/// The configurations reached from `cs` by one move on `sym`.
pub open spec fn successors(ms: Seq<MoveModel>, cs: Set<Config>, sym: char) -> Set<Config> {
    Set::new(|d: Config| exists|c: Config| cs.contains(c) && #[trigger] moves_from(ms, c, sym).contains(d))
}

/// The configurations reached from `cs` by at most `n` epsilon moves.
pub open spec fn closure(ms: Seq<MoveModel>, cs: Set<Config>, n: nat) -> Set<Config>
    decreases n,
{
    if n == 0 {
        cs
    } else {
        let prev = closure(ms, cs, (n - 1) as nat);
        prev.union(successors(ms, prev, EPSILON))
    }
}

/// The configurations after reading `w` from `init`: epsilon moves are followed
/// from the start, and again after each move that reads a symbol, the last one
/// included.
pub open spec fn configs_after(ms: Seq<MoveModel>, init: Set<Config>, w: Seq<char>) -> Set<Config>
    decreases w.len(),
{
    if w.len() == 0 {
        closure(ms, init, EPSILON_DEPTH as nat)
    } else {
        closure(ms, successors(ms, configs_after(ms, init, w.drop_last()), w.last()), EPSILON_DEPTH as nat)
    }
}

/// `k` stacks that each hold the bottom marker.
pub open spec fn bottoms(k: nat) -> Stacks {
    Seq::new(k, |i: int| seq![BOTTOM])
}

/// Each start state with `k` fresh stacks.
pub open spec fn initial(starts: Seq<VertexId>, k: nat) -> Set<Config> {
    Set::new(|c: Config| exists|i: int| 0 <= i < starts.len() && c == (starts[i], bottoms(k)))
}

/// Whether every stack of `s` is empty.
pub open spec fn all_empty(s: Stacks) -> bool {
    forall|i: int| 0 <= i < s.len() ==> #[trigger] s[i].len() == 0
}

/// Whether configuration `c` accepts: by a final state where any is declared,
/// else by empty stacks.
pub open spec fn config_accepts(c: Config, finals: Seq<VertexId>) -> bool {
    if finals.len() == 0 {
        all_empty(c.1)
    } else {
        finals.contains(c.0)
    }
}

/// Whether some configuration of `cs` accepts.
pub open spec fn accepting(cs: Set<Config>, finals: Seq<VertexId>) -> bool {
    exists|c: Config| cs.contains(c) && config_accepts(c, finals)
}

/// Whether the machine accepts `w`.
pub open spec fn machine_accepts(ms: Seq<MoveModel>, starts: Seq<VertexId>, finals: Seq<VertexId>, k: nat, w: Seq<char>) -> bool {
    accepting(configs_after(ms, initial(starts, k), w), finals)
}

pub(crate) proof fn lemma_stacks_view_push(s: Seq<Vec<char>>, v: Vec<char>)
    ensures
        stacks_view(s.push(v)) == stacks_view(s).push(v@),
        stacks_view(s).len() == s.len(),
{
    assert(stacks_view(s.push(v)) =~= stacks_view(s).push(v@));
}

fn same_stacks(a: &Vec<Vec<char>>, b: &Vec<Vec<char>>) -> (r: bool)
    ensures
        r == (stacks_view(a@) == stacks_view(b@)),
{
    if a.len() != b.len() {
        assert(stacks_view(a@).len() != stacks_view(b@).len());
        return false;
    }
    let mut i: usize = 0;
    while i < a.len()
        invariant
            i <= a.len(),
            a.len() == b.len(),
            forall|j: int| 0 <= j < i ==> a@[j]@ == b@[j]@,
        decreases a.len() - i,
    {
        if !same_chars(&a[i], &b[i]) {
            assert(stacks_view(a@)[i as int] != stacks_view(b@)[i as int]);
            return false;
        }
        i += 1;
    }
    assert(stacks_view(a@) =~= stacks_view(b@));
    true
}

fn copy_stacks(s: &Vec<Vec<char>>) -> (r: Vec<Vec<char>>)
    ensures
        stacks_view(r@) == stacks_view(s@),
{
    let mut r: Vec<Vec<char>> = Vec::new();
    let mut i: usize = 0;
    while i < s.len()
        invariant
            i <= s.len(),
            stacks_view(r@) == stacks_view(s@).subrange(0, i as int),
        decreases s.len() - i,
    {
        let t = crate::text::copy_chars(&s[i]);
        proof { lemma_stacks_view_push(r@, t); }
        r.push(t);
        i += 1;
        assert(stacks_view(r@) =~= stacks_view(s@).subrange(0, i as int));
    }
    assert(stacks_view(r@) =~= stacks_view(s@));
    r
}

fn copy_config(c: &ExecConfig) -> (r: ExecConfig)
    ensures
        config_view(r) == config_view(*c),
{
    (c.0, copy_stacks(&c.1))
}

/// Adds `c` to `out` unless a configuration equal to it is already there.
fn insert_config(out: &mut Vec<ExecConfig>, c: ExecConfig)
    ensures
        config_set(final(out)@) == config_set(old(out)@).insert(config_view(c)),
        final(out)@.len() == old(out)@.len() ==> final(out)@ == old(out)@,
        final(out)@.len() >= old(out)@.len(),
{
    let mut i: usize = 0;
    while i < out.len()
        invariant
            i <= out.len(),
            forall|j: int| 0 <= j < i ==> config_view(out@[j]) != config_view(c),
        decreases out.len() - i,
    {
        if out[i].0 == c.0 && same_stacks(&out[i].1, &c.1) {
            assert(config_set(out@).contains(config_view(c)));
            assert(config_set(out@).insert(config_view(c)) =~= config_set(out@));
            return;
        }
        i += 1;
    }
    let ghost prev = out@;
    out.push(c);
    assert forall|d: Config| config_set(out@).contains(d) <==> config_set(prev).insert(config_view(c)).contains(d) by {
        if config_set(out@).contains(d) {
            let j = choose|j: int| 0 <= j < out@.len() && config_view(out@[j]) == d;
            if j < prev.len() {
                assert(config_view(prev[j]) == d);
            }
        }
        if config_set(prev).contains(d) {
            let j = choose|j: int| 0 <= j < prev.len() && config_view(prev[j]) == d;
            assert(config_view(out@[j]) == d);
        }
        if d == config_view(c) {
            assert(config_view(out@[prev.len() as int]) == d);
        }
    }
    assert(config_set(out@) =~= config_set(prev).insert(config_view(c)));
}

fn fires_exec(m: &StackMove, c: &ExecConfig) -> (r: bool)
    ensures
        r == fires(m@, config_view(*c)),
{
    let s = &c.1;
    let ghost sv = stacks_view(s@);
    assert(config_view(*c).1 == sv);
    assert(sv.len() == s@.len());
    if m.source != c.0 || m.pops.len() != s.len() || m.pushes.len() != s.len() {
        return false;
    }
    let mut i: usize = 0;
    while i < s.len()
        invariant
            i <= s.len(),
            m.pops.len() == s.len(),
            sv == stacks_view(s@),
            config_view(*c).1 == sv,
            m@.source == c.0,
            m@.pops.len() == sv.len(),
            m@.pushes.len() == sv.len(),
            sv.len() == s@.len(),
            forall|j: int| 0 <= j < i ==> #[trigger] sv[j].len() > 0 && sv[j].last() == m.pops@[j],
        decreases s.len() - i,
    {
        let n = s[i].len();
        assert(sv[i as int] == s@[i as int]@);
        if n == 0 || s[i][n - 1] != m.pops[i] {
            assert(!(sv[i as int].len() > 0 && sv[i as int].last() == m@.pops[i as int]));
            return false;
        }
        i += 1;
    }
    true
}

/// The stacks after `m` has been taken.
fn apply_exec(m: &StackMove, s: &Vec<Vec<char>>) -> (r: Vec<Vec<char>>)
    requires
        m.pushes.len() == s.len(),
        forall|i: int| 0 <= i < s.len() ==> #[trigger] s@[i]@.len() > 0,
    ensures
        stacks_view(r@) == apply(m@, stacks_view(s@)),
{
    let mut r: Vec<Vec<char>> = Vec::new();
    let mut i: usize = 0;
    while i < s.len()
        invariant
            i <= s.len(),
            m.pushes.len() == s.len(),
            forall|i: int| 0 <= i < s.len() ==> #[trigger] s@[i]@.len() > 0,
            stacks_view(r@) == apply(m@, stacks_view(s@)).subrange(0, i as int),
        decreases s.len() - i,
    {
        let top = s[i].len() - 1;
        let mut t: Vec<char> = Vec::new();
        let mut j: usize = 0;
        while j < top
            invariant
                j <= top,
                top == s@[i as int]@.len() - 1,
                i < s.len(),
                t@ == s@[i as int]@.subrange(0, j as int),
            decreases top - j,
        {
            t.push(s[i][j]);
            j += 1;
            assert(t@ =~= s@[i as int]@.subrange(0, j as int));
        }
        let p = &m.pushes[i];
        let mut j: usize = 0;
        while j < p.len()
            invariant
                j <= p.len(),
                top == s@[i as int]@.len() - 1,
                i < s.len(),
                t@ == s@[i as int]@.drop_last() + p@.subrange(0, j as int),
            decreases p.len() - j,
        {
            t.push(p[j]);
            j += 1;
            assert(t@ =~= s@[i as int]@.drop_last() + p@.subrange(0, j as int));
        }
        assert(p@.subrange(0, p.len() as int) =~= p@);
        proof { lemma_stacks_view_push(r@, t); }
        r.push(t);
        i += 1;
        assert(stacks_view(r@) =~= apply(m@, stacks_view(s@)).subrange(0, i as int));
    }
    assert(stacks_view(r@) =~= apply(m@, stacks_view(s@)));
    r
}

/// The configurations reached from `c` by one of the first `n` moves on `sym`.
pub open spec fn moves_prefix(ms: Seq<MoveModel>, c: Config, sym: char, n: int) -> Set<Config> {
    Set::new(|d: Config| exists|i: int| 0 <= i < n && ms[i].symbol == sym && fires(ms[i], c) && d == (ms[i].target, apply(ms[i], c.1)))
}

/// Adds to `out` every configuration reached from `c` by one move on `sym`.
fn add_moves_from(ms: &Vec<StackMove>, c: &ExecConfig, sym: char, out: &mut Vec<ExecConfig>)
    ensures
        config_set(final(out)@) == config_set(old(out)@).union(moves_from(moves_view(ms@), config_view(*c), sym)),
        final(out)@.len() == old(out)@.len() ==> final(out)@ == old(out)@,
        final(out)@.len() >= old(out)@.len(),
{
    let ghost msv = moves_view(ms@);
    let ghost cv = config_view(*c);
    let ghost start = out@;
    let mut i: usize = 0;
    assert(config_set(out@).union(moves_prefix(msv, cv, sym, 0)) =~= config_set(out@));
    while i < ms.len()
        invariant
            i <= ms.len(),
            msv == moves_view(ms@),
            cv == config_view(*c),
            config_set(out@) == config_set(start).union(moves_prefix(msv, cv, sym, i as int)),
            out@.len() == start.len() ==> out@ == start,
            out@.len() >= start.len(),
        decreases ms.len() - i,
    {
        let m = &ms[i];
        assert(msv[i as int] == m@);
        let ghost before = out@;
        assert(before.len() == start.len() ==> before == start);
        if m.symbol == sym && fires_exec(m, c) {
            assert forall|j: int| 0 <= j < c.1@.len() implies #[trigger] c.1@[j]@.len() > 0 by {
                assert(cv.1[j] == c.1@[j]@);
            }
            let st = apply_exec(m, &c.1);
            insert_config(out, (m.target, st));
            assert(config_view((m.target, st)) == (msv[i as int].target, apply(msv[i as int], cv.1)));
        }
        assert forall|d: Config| #[trigger] config_set(out@).contains(d) <==> config_set(start).union(moves_prefix(msv, cv, sym, i + 1)).contains(d) by {
            if moves_prefix(msv, cv, sym, i + 1).contains(d) {
                let j = choose|j: int| 0 <= j < i + 1 && msv[j].symbol == sym && fires(msv[j], cv) && d == (msv[j].target, apply(msv[j], cv.1));
                if j < i {
                    assert(moves_prefix(msv, cv, sym, i as int).contains(d));
                }
            }
            if moves_prefix(msv, cv, sym, i as int).contains(d) {
                let j = choose|j: int| 0 <= j < i && msv[j].symbol == sym && fires(msv[j], cv) && d == (msv[j].target, apply(msv[j], cv.1));
                assert(moves_prefix(msv, cv, sym, i + 1).contains(d));
            }
        }
        assert(config_set(out@) =~= config_set(start).union(moves_prefix(msv, cv, sym, i + 1)));
        i += 1;
    }
    assert(moves_prefix(msv, cv, sym, ms.len() as int) =~= moves_from(msv, cv, sym));
}

/// The configurations reached from one of the first `n` of `cs` by one move on `sym`.
pub open spec fn successors_prefix(ms: Seq<MoveModel>, cs: Seq<ExecConfig>, sym: char, n: int) -> Set<Config> {
    Set::new(|d: Config| exists|x: int| 0 <= x < n && #[trigger] moves_from(ms, config_view(cs[x]), sym).contains(d))
}

/// Adds to `out` every configuration reached from one of `cs` by one move on `sym`.
fn add_successors(ms: &Vec<StackMove>, cs: &Vec<ExecConfig>, sym: char, out: &mut Vec<ExecConfig>)
    ensures
        config_set(final(out)@) == config_set(old(out)@).union(successors(moves_view(ms@), config_set(cs@), sym)),
        final(out)@.len() == old(out)@.len() ==> final(out)@ == old(out)@,
        final(out)@.len() >= old(out)@.len(),
{
    let ghost msv = moves_view(ms@);
    let ghost start = out@;
    let mut a: usize = 0;
    assert(config_set(out@).union(successors_prefix(msv, cs@, sym, 0)) =~= config_set(out@));
    while a < cs.len()
        invariant
            a <= cs.len(),
            msv == moves_view(ms@),
            config_set(out@) == config_set(start).union(successors_prefix(msv, cs@, sym, a as int)),
            out@.len() == start.len() ==> out@ == start,
            out@.len() >= start.len(),
        decreases cs.len() - a,
    {
        let ghost before = out@;
        add_moves_from(ms, &cs[a], sym, out);
        assert(before.len() == start.len() ==> before == start);
        assert(successors_prefix(msv, cs@, sym, a + 1) =~= successors_prefix(msv, cs@, sym, a as int).union(moves_from(msv, config_view(cs@[a as int]), sym)));
        assert(config_set(out@) =~= config_set(start).union(successors_prefix(msv, cs@, sym, a + 1)));
        a += 1;
    }
    assert forall|d: Config| #[trigger] successors_prefix(msv, cs@, sym, cs.len() as int).contains(d) <==> successors(msv, config_set(cs@), sym).contains(d) by {
        if successors_prefix(msv, cs@, sym, cs.len() as int).contains(d) {
            let x = choose|x: int| 0 <= x < cs.len() && #[trigger] moves_from(msv, config_view(cs@[x]), sym).contains(d);
            assert(config_set(cs@).contains(config_view(cs@[x])));
        }
        if successors(msv, config_set(cs@), sym).contains(d) {
            let c = choose|c: Config| config_set(cs@).contains(c) && #[trigger] moves_from(msv, c, sym).contains(d);
            let x = choose|x: int| 0 <= x < cs.len() && config_view(cs@[x]) == c;
            assert(moves_from(msv, config_view(cs@[x]), sym).contains(d));
        }
    }
    assert(successors_prefix(msv, cs@, sym, cs.len() as int) =~= successors(msv, config_set(cs@), sym));
}

fn copy_configs(cs: &Vec<ExecConfig>) -> (r: Vec<ExecConfig>)
    ensures
        config_set(r@) == config_set(cs@),
{
    let mut r: Vec<ExecConfig> = Vec::new();
    let mut i: usize = 0;
    while i < cs.len()
        invariant
            i <= cs.len(),
            r@.len() == i,
            forall|j: int| 0 <= j < i ==> config_view(#[trigger] r@[j]) == config_view(cs@[j]),
        decreases cs.len() - i,
    {
        r.push(copy_config(&cs[i]));
        i += 1;
    }
    assert forall|d: Config| config_set(r@).contains(d) <==> config_set(cs@).contains(d) by {
        if config_set(r@).contains(d) {
            let j = choose|j: int| 0 <= j < r@.len() && config_view(r@[j]) == d;
            assert(config_view(cs@[j]) == d);
        }
        if config_set(cs@).contains(d) {
            let j = choose|j: int| 0 <= j < cs@.len() && config_view(cs@[j]) == d;
            assert(config_view(r@[j]) == d);
        }
    }
    assert(config_set(r@) =~= config_set(cs@));
    r
}

proof fn lemma_closure_stable(ms: Seq<MoveModel>, cs: Set<Config>, n: nat, m: nat)
    requires
        closure(ms, cs, n + 1) == closure(ms, cs, n),
        n <= m,
    ensures
        closure(ms, cs, m) == closure(ms, cs, n),
    decreases m - n,
{
    if m > n {
        lemma_closure_stable(ms, cs, n, (m - 1) as nat);
    }
}

/// The configurations reached from `cs` by at most `EPSILON_DEPTH` epsilon moves.
fn epsilon_closure(ms: &Vec<StackMove>, cs: Vec<ExecConfig>) -> (r: Vec<ExecConfig>)
    ensures
        config_set(r@) == closure(moves_view(ms@), config_set(cs@), EPSILON_DEPTH as nat),
{
    let ghost msv = moves_view(ms@);
    let ghost init = config_set(cs@);
    let mut seen = cs;
    let mut round: usize = 0;
    while round < EPSILON_DEPTH
        invariant
            round <= EPSILON_DEPTH,
            msv == moves_view(ms@),
            init == config_set(cs@),
            config_set(seen@) == closure(msv, init, round as nat),
        decreases EPSILON_DEPTH - round,
    {
        let snapshot = copy_configs(&seen);
        let before = seen.len();
        let ghost prev = seen@;
        add_successors(ms, &snapshot, EPSILON, &mut seen);
        round += 1;
        assert(config_set(seen@) == closure(msv, init, round as nat));
        if seen.len() == before {
            proof {
                assert(seen@ == prev);
                assert(closure(msv, init, ((round - 1) as nat + 1) as nat) == closure(msv, init, (round - 1) as nat));
                lemma_closure_stable(msv, init, (round - 1) as nat, EPSILON_DEPTH as nat);
            }
            return seen;
        }
    }
    seen
}

/// The configurations after reading `w` from `init`.
pub(crate) fn run_machine(ms: &Vec<StackMove>, init: Vec<ExecConfig>, w: &Vec<char>) -> (r: Vec<ExecConfig>)
    ensures
        config_set(r@) == configs_after(moves_view(ms@), config_set(init@), w@),
{
    let ghost msv = moves_view(ms@);
    let ghost start = config_set(init@);
    let mut current = epsilon_closure(ms, init);
    let mut i: usize = 0;
    assert(w@.subrange(0, 0) =~= Seq::<char>::empty());
    while i < w.len()
        invariant
            i <= w.len(),
            msv == moves_view(ms@),
            config_set(current@) == configs_after(msv, start, w@.subrange(0, i as int)),
        decreases w.len() - i,
    {
        assert(w@.subrange(0, i + 1).drop_last() =~= w@.subrange(0, i as int));
        let mut next: Vec<ExecConfig> = Vec::new();
        add_successors(ms, &current, w[i], &mut next);
        assert(config_set(next@) =~= successors(msv, config_set(current@), w@[i as int]));
        current = epsilon_closure(ms, next);
        i += 1;
    }
    assert(w@.subrange(0, w.len() as int) =~= w@);
    current
}

/// `k` stacks that each hold the bottom marker.
fn fresh_stacks(k: usize) -> (r: Vec<Vec<char>>)
    ensures
        stacks_view(r@) == bottoms(k as nat),
{
    let mut r: Vec<Vec<char>> = Vec::new();
    let mut i: usize = 0;
    while i < k
        invariant
            i <= k,
            stacks_view(r@) == bottoms(i as nat),
        decreases k - i,
    {
        let mut b: Vec<char> = Vec::new();
        b.push(BOTTOM);
        proof { lemma_stacks_view_push(r@, b); }
        r.push(b);
        i += 1;
        assert(b@ =~= seq![BOTTOM]);
        assert(stacks_view(r@) =~= bottoms(i as nat));
    }
    r
}

/// Each start state with `k` fresh stacks.
pub(crate) fn initial_configs(starts: &Vec<VertexId>, k: usize) -> (r: Vec<ExecConfig>)
    ensures
        config_set(r@) == initial(starts@, k as nat),
{
    let mut r: Vec<ExecConfig> = Vec::new();
    let mut i: usize = 0;
    while i < starts.len()
        invariant
            i <= starts.len(),
            r@.len() == i,
            forall|j: int| 0 <= j < i ==> config_view(#[trigger] r@[j]) == (starts@[j], bottoms(k as nat)),
        decreases starts.len() - i,
    {
        r.push((starts[i], fresh_stacks(k)));
        i += 1;
    }
    assert forall|d: Config| config_set(r@).contains(d) <==> initial(starts@, k as nat).contains(d) by {
        if config_set(r@).contains(d) {
            let j = choose|j: int| 0 <= j < r@.len() && config_view(r@[j]) == d;
            assert(d == (starts@[j], bottoms(k as nat)));
        }
        if initial(starts@, k as nat).contains(d) {
            let j = choose|j: int| 0 <= j < starts.len() && d == (starts@[j], bottoms(k as nat));
            assert(config_view(r@[j]) == d);
        }
    }
    assert(config_set(r@) =~= initial(starts@, k as nat));
    r
}

fn stacks_empty(s: &Vec<Vec<char>>) -> (r: bool)
    ensures
        r == all_empty(stacks_view(s@)),
{
    let ghost sv = stacks_view(s@);
    assert(sv.len() == s@.len());
    let mut i: usize = 0;
    while i < s.len()
        invariant
            i <= s.len(),
            sv == stacks_view(s@),
            sv.len() == s@.len(),
            forall|j: int| 0 <= j < i ==> #[trigger] sv[j].len() == 0,
        decreases s.len() - i,
    {
        assert(sv[i as int] == s@[i as int]@);
        if s[i].len() != 0 {
            return false;
        }
        i += 1;
    }
    true
}

/// Whether some configuration of `cs` accepts.
pub(crate) fn any_accepting(cs: &Vec<ExecConfig>, finals: &Vec<VertexId>) -> (r: bool)
    ensures
        r == accepting(config_set(cs@), finals@),
{
    let mut i: usize = 0;
    while i < cs.len()
        invariant
            i <= cs.len(),
            forall|j: int| 0 <= j < i ==> !config_accepts(#[trigger] config_view(cs@[j]), finals@),
        decreases cs.len() - i,
    {
        let hit = if finals.len() > 0 {
            crate::text::contains_id(finals, cs[i].0)
        } else {
            stacks_empty(&cs[i].1)
        };
        if hit {
            assert(config_set(cs@).contains(config_view(cs@[i as int])));
            return true;
        }
        i += 1;
    }
    assert forall|c: Config| config_set(cs@).contains(c) implies !config_accepts(c, finals@) by {
        let j = choose|j: int| 0 <= j < cs@.len() && config_view(cs@[j]) == c;
    }
    false
}

/// The symbols that the moves read, epsilon left out, in order.
pub open spec fn move_symbols(ms: Seq<MoveModel>) -> Seq<char>
    decreases ms.len(),
{
    if ms.len() == 0 {
        Seq::empty()
    } else if ms.last().symbol == EPSILON {
        move_symbols(ms.drop_last())
    } else {
        move_symbols(ms.drop_last()).push(ms.last().symbol)
    }
}

proof fn lemma_move_symbols_no_epsilon(ms: Seq<MoveModel>)
    ensures
        !move_symbols(ms).contains(EPSILON),
    decreases ms.len(),
{
    if ms.len() > 0 {
        lemma_move_symbols_no_epsilon(ms.drop_last());
        let rest = move_symbols(ms.drop_last());
        if ms.last().symbol != EPSILON && move_symbols(ms).contains(EPSILON) {
            let i = choose|i: int| 0 <= i < move_symbols(ms).len() && move_symbols(ms)[i] == EPSILON;
            assert(rest[i] == EPSILON);
        }
    }
}

/// The alphabet of a machine's moves never holds the epsilon symbol.
pub proof fn lemma_machine_alphabet_without_epsilon(ms: Seq<MoveModel>)
    ensures
        !crate::data::distinct_in_order(move_symbols(ms)).contains(EPSILON),
{
    lemma_move_symbols_no_epsilon(ms);
    if crate::data::distinct_in_order(move_symbols(ms)).contains(EPSILON) {
        crate::data::lemma_distinct_from(move_symbols(ms), EPSILON);
    }
}

/// Appends `m` to `moves` and its symbol, if new and not epsilon, to `alphabet`.
pub(crate) fn push_move(moves: &mut Vec<StackMove>, alphabet: &mut Vec<char>, m: StackMove)
    requires
        old(alphabet)@ == crate::data::distinct_in_order(move_symbols(moves_view(old(moves)@))),
    ensures
        moves_view(final(moves)@) == moves_view(old(moves)@).push(m@),
        final(alphabet)@ == crate::data::distinct_in_order(move_symbols(moves_view(final(moves)@))),
{
    let ghost before = moves_view(moves@);
    let sym = m.symbol;
    moves.push(m);
    assert(moves_view(moves@) =~= before.push(m@));
    assert(moves_view(moves@).drop_last() =~= before);
    if sym != EPSILON {
        crate::data::add_symbol(alphabet, sym, Ghost(move_symbols(before)));
    }
}

/// The characters `cs` separated by commas.
pub open spec fn chars_joined(cs: Seq<char>) -> Seq<char>
    decreases cs.len(),
{
    if cs.len() <= 1 {
        cs
    } else {
        chars_joined(cs.drop_last()) + seq![',', cs.last()]
    }
}

/// The strings `ss` separated by commas.
pub open spec fn strings_joined(ss: Seq<Seq<char>>) -> Seq<char>
    decreases ss.len(),
{
    if ss.len() == 0 {
        Seq::empty()
    } else if ss.len() == 1 {
        ss[0]
    } else {
        strings_joined(ss.drop_last()) + seq![','] + ss.last()
    }
}

/// How a move is shown: its symbol, the characters it pops, its target and the
/// strings it pushes.
pub open spec fn move_line(m: MoveModel) -> Seq<char> {
    "\n    "@ + seq![m.symbol, ' '] + chars_joined(m.pops) + " -> "@ + decimal(m.target as nat) + seq![' ']
        + strings_joined(m.pushes)
}

/// The shown lines of the moves.
pub open spec fn move_entries(ms: Seq<MoveModel>) -> Seq<Entry> {
    ms.map_values(|m: MoveModel| (m.source, move_line(m)))
}

fn move_line_exec(m: &StackMove) -> (r: Vec<char>)
    ensures
        r@ == move_line(m@),
{
    let mut out = chars_of("\n    ");
    out.push(m.symbol);
    out.push(' ');
    let ghost head = out@;
    let mut i: usize = 0;
    while i < m.pops.len()
        invariant
            i <= m.pops.len(),
            out@ == head + chars_joined(m.pops@.subrange(0, i as int)),
        decreases m.pops.len() - i,
    {
        assert(m.pops@.subrange(0, i + 1).drop_last() =~= m.pops@.subrange(0, i as int));
        if i > 0 {
            out.push(',');
        }
        out.push(m.pops[i]);
        i += 1;
        proof {
            if i == 1 {
                assert(m.pops@.subrange(0, 1) =~= seq![m.pops@[0]]);
            }
        }
        assert(out@ =~= head + chars_joined(m.pops@.subrange(0, i as int)));
    }
    assert(m.pops@.subrange(0, m.pops.len() as int) =~= m.pops@);
    append_chars(&mut out, &chars_of(" -> "));
    append_chars(&mut out, &decimal_chars(m.target));
    out.push(' ');
    let ghost mid = out@;
    let ghost pv = stacks_view(m.pushes@);
    let mut j: usize = 0;
    while j < m.pushes.len()
        invariant
            j <= m.pushes.len(),
            pv == stacks_view(m.pushes@),
            pv.len() == m.pushes@.len(),
            out@ == mid + strings_joined(pv.subrange(0, j as int)),
        decreases m.pushes.len() - j,
    {
        assert(pv.subrange(0, j + 1).drop_last() =~= pv.subrange(0, j as int));
        assert(pv[j as int] == m.pushes@[j as int]@);
        if j > 0 {
            out.push(',');
        }
        append_chars(&mut out, &m.pushes[j]);
        j += 1;
        proof {
            if j == 1 {
                assert(pv.subrange(0, 1)[0] == pv[0]);
            }
        }
        assert(out@ =~= mid + strings_joined(pv.subrange(0, j as int)));
    }
    assert(pv.subrange(0, m.pushes.len() as int) =~= pv);
    assert(out@ =~= move_line(m@));
    out
}

/// The shown lines of the moves.
pub(crate) fn move_entries_exec(ms: &Vec<StackMove>) -> (r: Vec<(VertexId, Vec<char>)>)
    ensures
        entries_view(r@) == move_entries(moves_view(ms@)),
{
    let ghost mv = moves_view(ms@);
    let mut es: Vec<(VertexId, Vec<char>)> = Vec::new();
    let mut i: usize = 0;
    while i < ms.len()
        invariant
            i <= ms.len(),
            mv == moves_view(ms@),
            entries_view(es@) == move_entries(mv.subrange(0, i as int)),
        decreases ms.len() - i,
    {
        let line = move_line_exec(&ms[i]);
        let ghost before = es@;
        let ghost lv = line@;
        es.push((ms[i].source, line));
        assert(entries_view(es@) =~= entries_view(before).push((ms@[i as int].source, lv)));
        assert(mv[i as int] == ms@[i as int]@);
        assert(move_entries(mv.subrange(0, i + 1)) =~= move_entries(mv.subrange(0, i as int)).push((mv[i as int].source, move_line(mv[i as int]))));
        i += 1;
    }
    assert(mv.subrange(0, ms.len() as int) =~= mv);
    es
}

} // verus!
