//! Choosing how to read an automaton description, and building it.
use vstd::prelude::*;
use crate::automaton::{
    Automaton, AutomatonType, build_automaton, build_error, built_from, dfa_error, type_named,
    determine_automaton_type,
};
use crate::data::AutomatonData;
use crate::dfa::{DFA, dfa_of};
use crate::data::{edge_count, starts_of};
use crate::parsing::{parse_text, text_declarations, data_view, datas_view};
use crate::text::{chars_of, lines_of, lines_chars, words_of, words_chars, trim, trim_chars, string_of};
use crate::xml::{parse_xml, xml_declarations};

verus! {

/// Whether `s` ends with `p`.
pub open spec fn ends_with(s: Seq<char>, p: Seq<char>) -> bool {
    p.len() <= s.len() && s.subrange(s.len() - p.len(), s.len() as int) == p
}

fn ends_with_exec(s: &Vec<char>, p: &str) -> (r: bool)
    ensures
        r == ends_with(s@, p@),
{
    let pc = chars_of(p);
    if pc.len() > s.len() {
        return false;
    }
    let off = s.len() - pc.len();
    let mut i: usize = 0;
    while i < pc.len()
        invariant
            i <= pc.len(),
            pc@ == p@,
            off + pc.len() == s.len(),
            forall|j: int| 0 <= j < i ==> s@[off + j] == pc@[j],
        decreases pc.len() - i,
    {
        if s[off + i] != pc[i] {
            assert(s@.subrange(off as int, s.len() as int)[i as int] != pc@[i as int]);
            return false;
        }
        i += 1;
    }
    assert(s@.subrange(off as int, s.len() as int) =~= pc@);
    true
}

/// Whether a file of this name holds a diagram in XML.
pub open spec fn is_diagram_path(path: Seq<char>) -> bool {
    ends_with(path, ".xml"@) || ends_with(path, ".drawio"@)
}

/// Reads the declarations that `contents` makes: as a diagram where `filepath`
/// ends with `.xml` or `.drawio`, else in the line format.
pub fn parse_source(filepath: &str, contents: String) -> (r: Option<Vec<AutomatonData>>)
    ensures
        match r {
            Some(v) => Some(datas_view(v@)) == if is_diagram_path(filepath@) {
                xml_declarations(contents@)
            } else {
                text_declarations(contents@)
            },
            None => if is_diagram_path(filepath@) {
                xml_declarations(contents@) is None
            } else {
                text_declarations(contents@) is None
            },
        },
{
    let path = chars_of(filepath);
    if ends_with_exec(&path, ".xml") || ends_with_exec(&path, ".drawio") {
        parse_xml(contents)
    } else {
        parse_text(contents)
    }
}

/// The type word of a text: the second word of its first line that starts, once
/// trimmed, with `t`.
pub open spec fn type_word(lines: Seq<Seq<char>>) -> Option<Seq<char>>
    decreases lines.len(),
{
    if lines.len() == 0 {
        None
    } else {
        let t = trim(lines[0]);
        if t.len() > 0 && t[0] == 't' {
            let ws = words_of(lines[0]);
            if ws.len() >= 2 {
                Some(ws[1])
            } else {
                None
            }
        } else {
            type_word(lines.drop_first())
        }
    }
}

/// The kind that a text in the line format names in its type line.
pub open spec fn text_type(s: Seq<char>) -> Option<AutomatonType> {
    match type_word(lines_of(s)) {
        Some(w) => type_named(w),
        None => None,
    }
}

/// Reads a text in the line format whose type line (`t <kind>`) names the kind
/// of automaton, and builds it. `None` where there is no type line, the kind is
/// unknown, the text does not read, or the automaton cannot be built.
pub fn parse_text_automaton(file: String) -> (r: Option<Automaton>)
    ensures
        text_type(file@) is None || text_declarations(file@) is None ==> r is None,
        match r {
            Some(a) => Some(a.kind()) == text_type(file@) && exists|data: Seq<AutomatonData>|
                text_declarations(file@) == Some(datas_view(data)) && #[trigger] built_from(a, a.kind(), data),
            None => text_type(file@) is None || text_declarations(file@) is None || exists|data: Seq<AutomatonData>|
                text_declarations(file@) == Some(datas_view(data)) && #[trigger] build_error(text_type(file@)->0, data) is Some,
        },
{
    let lines = lines_chars(&chars_of(file.as_str()));
    let ghost ls = lines_of(file@);
    let mut i: usize = 0;
    let mut word: Option<Vec<char>> = None;
    assert(ls.subrange(0, ls.len() as int) =~= ls);
    while i < lines.len()
        invariant_except_break
            word is None,
            type_word(ls) == type_word(ls.subrange(i as int, ls.len() as int)),
        invariant
            i <= lines.len(),
            lines@.len() == ls.len(),
            ls == lines_of(file@),
            forall|j: int| 0 <= j < lines@.len() ==> #[trigger] lines@[j]@ == ls[j],
        ensures
            word matches Some(w) ==> type_word(ls) == Some(w@),
            word is None ==> type_word(ls) is None,
        decreases lines.len() - i,
    {
        let ghost rest = ls.subrange(i as int, ls.len() as int);
        assert(rest[0] == ls[i as int]);
        assert(rest.drop_first() =~= ls.subrange(i + 1, ls.len() as int));
        let t = trim_chars(&lines[i]);
        if t.len() > 0 && t[0] == 't' {
            let ws = words_chars(&lines[i]);
            assert(words_of(rest[0]) == words_of(lines@[i as int]@));
            if ws.len() >= 2 {
                let w = crate::text::copy_chars(&ws[1]);
                assert(w@ == words_of(rest[0])[1]);
                assert(type_word(rest) == Some(w@));
                word = Some(w);
            } else {
                assert(type_word(rest) is None);
            }
            break;
        }
        i += 1;
    }
    let w = match word {
        Some(w) => w,
        None => {
            return None;
        },
    };
    let kind = match determine_automaton_type(string_of(&w).as_str()) {
        Some(k) => k,
        None => {
            return None;
        },
    };
    let data = match parse_text(file) {
        Some(d) => d,
        None => {
            return None;
        },
    };
    let ghost dv = data@;
    match build_automaton(kind, data) {
        Ok(a) => {
            assert(built_from(a, a.kind(), dv));
            Some(a)
        },
        Err(_) => {
            assert(build_error(text_type(file@)->0, dv) is Some);
            None
        },
    }
}

/// Declarations that look the same have the same edges and start states.
proof fn lemma_view_determines(d1: Seq<AutomatonData>, d2: Seq<AutomatonData>)
    requires
        datas_view(d1) == datas_view(d2),
    ensures
        edge_count(d1) == edge_count(d2),
        starts_of(d1) == starts_of(d2),
    decreases d1.len(),
{
    assert(d1.len() == datas_view(d1).len());
    assert(d2.len() == datas_view(d2).len());
    if d1.len() > 0 {
        assert(datas_view(d1.drop_last()) =~= datas_view(d2.drop_last())) by {
            assert forall|i: int| 0 <= i < d1.len() - 1 implies datas_view(d1.drop_last())[i] == datas_view(d2.drop_last())[i] by {
                assert(datas_view(d1)[i] == datas_view(d2)[i]);
                assert(datas_view(d1)[i] == data_view(d1[i]));
                assert(datas_view(d2)[i] == data_view(d2[i]));
                assert(d1.drop_last()[i] == d1[i]);
                assert(d2.drop_last()[i] == d2[i]);
                assert(datas_view(d1.drop_last())[i] == data_view(d1[i]));
                assert(datas_view(d2.drop_last())[i] == data_view(d2[i]));
            }
        }
        lemma_view_determines(d1.drop_last(), d2.drop_last());
        assert(datas_view(d1)[d1.len() - 1] == datas_view(d2)[d2.len() - 1]);
        assert(data_view(d1.last()) == data_view(d2.last()));
        match (d1.last(), d2.last()) {
            (AutomatonData::Edge(_, _, _), AutomatonData::Edge(_, _, _)) => {},
            (AutomatonData::Final(_), AutomatonData::Final(_)) => {},
            (AutomatonData::Start(a), AutomatonData::Start(b)) => {
                assert(a == b);
            },
            _ => {
                assert(false);
            },
        }
    }
}

/// Reads a DFA from a text in the line format; `None` exactly where the text does
/// not read or describes no DFA.
pub fn parse_text_dfa(file: String) -> (r: Option<DFA>)
    ensures
        text_declarations(file@) is None ==> r is None,
        forall|data: Seq<AutomatonData>|
            text_declarations(file@) == Some(#[trigger] datas_view(data)) ==> (dfa_error(data) is None
                <==> r is Some),
        r matches Some(d) ==> exists|data: Seq<AutomatonData>|
            text_declarations(file@) == Some(datas_view(data)) && d.model() == #[trigger] dfa_of(data),
{
    let data = match parse_text(file) {
        Some(d) => d,
        None => {
            return None;
        },
    };
    let ghost dv = data@;
    proof {
        assert forall|other: Seq<AutomatonData>|
            text_declarations(file@) == Some(#[trigger] datas_view(other)) implies dfa_error(other)
            == dfa_error(dv) by {
            lemma_view_determines(other, dv);
        }
    }
    match DFA::new(data) {
        Ok(d) => {
            assert(d.model() == dfa_of(dv));
            Some(d)
        },
        Err(_) => None,
    }
}

} // verus!
