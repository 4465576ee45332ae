//! Reading automaton descriptions from the line-oriented text format.
use vstd::prelude::*;
use crate::data::{AutomatonData, VertexId};
use crate::text::{chars_of, string_of, same_chars, lines_of, lines_chars, words_of, words_chars};

verus! {

/// An automaton declaration, mathematically.
pub enum DataView {
    Edge(VertexId, VertexId, Seq<char>),
    Final(VertexId),
    Start(VertexId),
}

pub open spec fn data_view(d: AutomatonData) -> DataView {
    match d {
        AutomatonData::Edge(s, t, l) => DataView::Edge(s, t, l@),
        AutomatonData::Final(id) => DataView::Final(id),
        AutomatonData::Start(id) => DataView::Start(id),
    }
}

pub open spec fn datas_view(ds: Seq<AutomatonData>) -> Seq<DataView> {
    ds.map_values(|d: AutomatonData| data_view(d))
}

/// Where `n` first occurs in `names`.
pub open spec fn position(names: Seq<Seq<char>>, n: Seq<char>) -> Option<nat>
    decreases names.len(),
{
    if names.len() == 0 {
        None
    } else {
        match position(names.drop_last(), n) {
            Some(i) => Some(i),
            None => if names.last() == n {
                Some((names.len() - 1) as nat)
            } else {
                None
            },
        }
    }
}

/// The names known after `n` is asked for, and the handle of `n`: one more than
/// the place of its first mention. `None` once the handles run out.
pub open spec fn assign(names: Seq<Seq<char>>, n: Seq<char>) -> Option<(Seq<Seq<char>>, VertexId)> {
    match position(names, n) {
        Some(i) => if i + 1 <= u32::MAX {
            Some((names, (i + 1) as VertexId))
        } else {
            None
        },
        None => if names.len() + 1 <= u32::MAX {
            Some((names.push(n), (names.len() + 1) as VertexId))
        } else {
            None
        },
    }
}

proof fn lemma_position_prefix(names: Seq<Seq<char>>, n: Seq<char>, j: int)
    requires
        0 <= j <= names.len(),
        position(names.subrange(0, j), n) is Some,
    ensures
        position(names, n) == position(names.subrange(0, j), n),
    decreases names.len() - j,
{
    if j < names.len() {
        assert(names.subrange(0, j + 1).drop_last() =~= names.subrange(0, j));
        lemma_position_prefix(names, n, j + 1);
    } else {
        assert(names.subrange(0, j) =~= names);
    }
}

/// Hands out small handles for textual state names, in order of first mention.
pub struct IdGenerator {
    names: Vec<Vec<char>>,
}

impl View for IdGenerator {
    type V = Seq<Seq<char>>;

    closed spec fn view(&self) -> Seq<Seq<char>> {
        self.names@.map_values(|n: Vec<char>| n@)
    }
}

impl IdGenerator {
    /// A generator that knows no name.
    pub fn new() -> (r: IdGenerator)
        ensures
            r@ == Seq::<Seq<char>>::empty(),
    {
        let r = IdGenerator { names: Vec::new() };
        assert(r@ =~= Seq::<Seq<char>>::empty());
        r
    }

    /// The handle of `name`, made on its first mention.
    pub fn get(&mut self, name: &Vec<char>) -> (r: Option<VertexId>)
        ensures
            match assign(old(self)@, name@) {
                Some(p) => r == Some(p.1) && final(self)@ == p.0,
                None => r is None,
            },
    {
        let ghost v = self@;
        let mut i: usize = 0;
        while i < self.names.len()
            invariant
                i <= self.names.len(),
                v == self@,
                v.len() == self.names@.len(),
                forall|j: int| 0 <= j < v.len() ==> #[trigger] v[j] == self.names@[j]@,
                position(v.subrange(0, i as int), name@) is None,
            decreases self.names.len() - i,
        {
            assert(v.subrange(0, i + 1).drop_last() =~= v.subrange(0, i as int));
            if same_chars(&self.names[i], name) {
                proof { lemma_position_prefix(v, name@, i + 1); }
                if i >= u32::MAX as usize {
                    return None;
                }
                return Some((i + 1) as VertexId);
            }
            i += 1;
        }
        assert(v.subrange(0, self.names.len() as int) =~= v);
        if self.names.len() >= u32::MAX as usize {
            return None;
        }
        let ghost before = self.names@;
        self.names.push(crate::text::copy_chars(name));
        assert(self@ =~= v.push(name@));
        Some(self.names.len() as VertexId)
    }
}

/// One line of the text format: `c` and `t` lines are comments, `s x` declares a
/// start state, `f x` a final state, `x y [label]` a transition from `x` to `y`
/// (label `e` if none is given); other lines are ignored. `None` where an `s` or
/// `f` line names no state, or the handles run out.
pub open spec fn text_step(st: (Seq<Seq<char>>, Seq<DataView>), line: Seq<char>) -> Option<(Seq<Seq<char>>, Seq<DataView>)> {
    let ws = words_of(line);
    if ws.len() == 0 || ws[0] == seq!['c'] || ws[0] == seq!['t'] {
        Some(st)
    } else if ws[0] == seq!['s'] || ws[0] == seq!['f'] {
        if ws.len() < 2 {
            None
        } else {
            match assign(st.0, ws[1]) {
                Some(a) => Some((a.0, st.1.push(if ws[0] == seq!['s'] {
                    DataView::Start(a.1)
                } else {
                    DataView::Final(a.1)
                }))),
                None => None,
            }
        }
    } else if ws.len() < 2 {
        Some(st)
    } else {
        match assign(st.0, ws[0]) {
            Some(a) => match assign(a.0, ws[1]) {
                Some(b) => Some((b.0, st.1.push(DataView::Edge(a.1, b.1, if ws.len() >= 3 {
                    ws[2]
                } else {
                    seq!['e']
                })))),
                None => None,
            },
            None => None,
        }
    }
}

/// The state after the text format's `lines`.
pub open spec fn text_fold(lines: Seq<Seq<char>>) -> Option<(Seq<Seq<char>>, Seq<DataView>)>
    decreases lines.len(),
{
    if lines.len() == 0 {
        Some((Seq::empty(), Seq::empty()))
    } else {
        match text_fold(lines.drop_last()) {
            Some(st) => text_step(st, lines.last()),
            None => None,
        }
    }
}

/// The declarations that a text in the line format makes.
pub open spec fn text_declarations(s: Seq<char>) -> Option<Seq<DataView>> {
    match text_fold(lines_of(s)) {
        Some(st) => Some(st.1),
        None => None,
    }
}

proof fn lemma_fold_fails(lines: Seq<Seq<char>>, j: int)
    requires
        0 <= j <= lines.len(),
        text_fold(lines.subrange(0, j)) is None,
    ensures
        text_fold(lines) is None,
    decreases lines.len() - j,
{
    if j < lines.len() {
        assert(lines.subrange(0, j + 1).drop_last() =~= lines.subrange(0, j));
        lemma_fold_fails(lines, j + 1);
    } else {
        assert(lines.subrange(0, j) =~= lines);
    }
}

fn is_word(w: &Vec<char>, c: char) -> (r: bool)
    ensures
        r == (w@ == seq![c]),
{
    let r = w.len() == 1 && w[0] == c;
    if r {
        assert(w@ =~= seq![c]);
    }
    r
}

pub(crate) fn push_data(out: &mut Vec<AutomatonData>, d: AutomatonData)
    ensures
        datas_view(final(out)@) == datas_view(old(out)@).push(data_view(d)),
{
    let ghost before = out@;
    out.push(d);
    assert(datas_view(out@) =~= datas_view(before).push(data_view(d)));
}

/// Reads the declarations of a text in the line format, or `None` where an `s` or
/// `f` line names no state or the handles run out.
pub fn parse_text(file: String) -> (r: Option<Vec<AutomatonData>>)
    ensures
        match r {
            Some(v) => text_declarations(file@) == Some(datas_view(v@)),
            None => text_declarations(file@) is None,
        },
{
    let lines = lines_chars(&chars_of(file.as_str()));
    let ghost ls = lines_of(file@);
    let mut idgen = IdGenerator::new();
    let mut out: Vec<AutomatonData> = Vec::new();
    assert(datas_view(out@) =~= Seq::<DataView>::empty());
    let mut i: usize = 0;
    while i < lines.len()
        invariant
            i <= lines.len(),
            lines@.len() == ls.len(),
            ls == lines_of(file@),
            forall|j: int| 0 <= j < lines@.len() ==> #[trigger] lines@[j]@ == ls[j],
            text_fold(ls.subrange(0, i as int)) == Some((idgen@, datas_view(out@))),
        decreases lines.len() - i,
    {
        assert(ls.subrange(0, i + 1).drop_last() =~= ls.subrange(0, i as int));
        let ghost st = (idgen@, datas_view(out@));
        let ws = words_chars(&lines[i]);
        let ghost wv = words_of(ls[i as int]);
        assert(forall|j: int| 0 <= j < ws@.len() ==> #[trigger] ws@[j]@ == wv[j]);
        assert(ls.subrange(0, i + 1).last() == ls[i as int]);
        if ws.len() == 0 || is_word(&ws[0], 'c') || is_word(&ws[0], 't') {
        } else if is_word(&ws[0], 's') || is_word(&ws[0], 'f') {
            if ws.len() < 2 {
                proof { lemma_fold_fails(ls, i + 1); }
                return None;
            }
            let start = is_word(&ws[0], 's');
            match idgen.get(&ws[1]) {
                Some(id) => {
                    if start {
                        push_data(&mut out, AutomatonData::Start(id));
                    } else {
                        push_data(&mut out, AutomatonData::Final(id));
                    }
                },
                None => {
                    proof { lemma_fold_fails(ls, i + 1); }
                    return None;
                },
            }
        } else if ws.len() >= 2 {
            let source = match idgen.get(&ws[0]) {
                Some(id) => id,
                None => {
                    proof { lemma_fold_fails(ls, i + 1); }
                    return None;
                },
            };
            let target = match idgen.get(&ws[1]) {
                Some(id) => id,
                None => {
                    proof { lemma_fold_fails(ls, i + 1); }
                    return None;
                },
            };
            let label = if ws.len() >= 3 {
                string_of(&ws[2])
            } else {
                let mut e: Vec<char> = Vec::new();
                e.push('e');
                assert(e@ =~= seq!['e']);
                string_of(&e)
            };
            push_data(&mut out, AutomatonData::Edge(source, target, label));
        }
        i += 1;
    }
    assert(ls.subrange(0, lines.len() as int) =~= ls);
    Some(out)
}

} // verus!
