use automata::automaton::{build_automaton, Automaton, AutomatonType};
use automata::data::AutomatonData;
use automata::source::{parse_source, parse_text_automaton};
use automata::xml::{parse_xml, parse_xml_automaton, sanitize_label};

const UNEVEN_DRAWIO: &str = r#"<mxfile><diagram><mxGraphModel><root>
<mxCell id="0"/>
<mxCell id="1" parent="0"/>
<mxCell id="q0" value="q0" style="ellipse;" vertex="1" parent="1"/>
<mxCell id="q1" value="q1" style="ellipse;shape=doubleEllipse;" vertex="1" parent="1"/>
<mxCell id="s" style="endArrow=classic;" edge="1" target="q0" parent="1"/>
<mxCell id="e1" value="a" style="endArrow=classic;" edge="1" source="q0" target="q1" parent="1"/>
<mxCell id="e2" value="" style="endArrow=classic;" edge="1" source="q1" target="q0" parent="1"/>
<mxCell id="l2" value="a" style="edgeLabel;html=1;" vertex="1" connectable="0" parent="e2"/>
</root></mxGraphModel></diagram></mxfile>"#;

const NFA_DRAWIO: &str = r#"<mxfile><diagram><mxGraphModel><root>
<mxCell id="0"/>
<mxCell id="1" parent="0"/>
<mxCell id="p" style="ellipse;" vertex="1" parent="1"/>
<mxCell id="q" style="ellipse;shape=doubleEllipse;" vertex="1" parent="1"/>
<mxCell id="s1" edge="1" target="p" parent="1"/>
<mxCell id="e1" value="a&lt;div&gt;b&lt;/div&gt;" edge="1" source="p" target="q" parent="1"/>
<mxCell id="e2" value="c" style="startArrow=classic;endArrow=classic;" edge="1" source="p" target="q" parent="1"/>
<mxCell id="e3" value="d" style="startArrow=classic;endArrow=none;" edge="1" source="p" target="q" parent="1"/>
</root></mxGraphModel></diagram></mxfile>"#;

const PDA_DRAWIO: &str = r#"<mxfile><diagram><mxGraphModel><root>
<mxCell id="0"/>
<mxCell id="1" parent="0"/>
<mxCell id="q" style="ellipse;" vertex="1" parent="1"/>
<mxCell id="s" edge="1" source="q" parent="1"/>
<mxCell id="e1" value="(,#,X" edge="1" source="q" target="q" parent="1"/>
<mxCell id="e2" value="(,X,XX" edge="1" source="q" target="q" parent="1"/>
<mxCell id="e3" value="),X," edge="1" source="q" target="q" parent="1"/>
</root></mxGraphModel></diagram></mxfile>"#;

fn load(kind: AutomatonType, path: &str, text: &str) -> Automaton {
    let data = parse_source(path, text.to_string()).expect("diagram should read");
    match build_automaton(kind, data) {
        Ok(a) => a,
        Err(e) => panic!("could not build automaton: {:?}", e),
    }
}

#[test]
fn dfa_test_parse_xml() {
    let data = parse_xml(UNEVEN_DRAWIO.to_string()).unwrap();
    assert!(matches!(data[0], AutomatonData::Final(1)));
    assert!(matches!(data[1], AutomatonData::Start(2)));
    assert!(matches!(&data[2], AutomatonData::Edge(2, 1, l) if l == "a"));
    assert!(matches!(&data[3], AutomatonData::Edge(1, 2, l) if l == "a"));
    assert_eq!(data.len(), 4);
    let a = load(AutomatonType::DFA, "data/dfa/is-uneven-dfa.xml", UNEVEN_DRAWIO);
    assert!(a.accepts("a"));
    assert!(a.accepts("aaa"));
    assert!(!a.accepts("aa"));
    assert!(!a.accepts(""));
}

#[test]
fn nfa_test_parse_xml() {
    let a = load(AutomatonType::NFA, "data/nfa/equivNFA.drawio", NFA_DRAWIO);
    assert!(a.accepts("a"));
    assert!(a.accepts("b"));
    assert!(a.accepts("c"));
    assert!(!a.accepts("d"));
    assert!(!a.accepts("ab"));
    assert_eq!(a.alphabet(), &vec!['a', 'b', 'c', 'd']);
}

#[test]
fn pda_test_parse_xml() {
    let a = load(AutomatonType::PDA, "data/pda/pda.drawio.xml", PDA_DRAWIO);
    assert!(a.accepts("()"));
    assert!(a.accepts("(())"));
    assert!(!a.accepts("("));
    assert!(!a.accepts(")("));
}

#[test]
fn xml_that_does_not_parse() {
    assert!(parse_xml("<mxfile><root>".to_string()).is_none());
    let no_id = r#"<r><c edge="1" source="a" target="b" value="x"/></r>"#;
    assert!(parse_xml(no_id.to_string()).is_none());
}

#[test]
fn sanitize_label_splits_diagram_markup() {
    assert_eq!(sanitize_label("a<div>b</div>"), vec!["a", "b"]);
    assert_eq!(sanitize_label("a,#,X<br><div> b,X, </div>"), vec!["a,#,X", "b,X,"]);
    assert_eq!(sanitize_label("  "), Vec::<String>::new());
    assert_eq!(sanitize_label("x/y"), vec!["xy"]);
}

#[test]
fn source_chooses_reader_by_name() {
    let text = "s 1\nf 2\n1 2 a\n";
    assert_eq!(parse_source("a.gr", text.to_string()).unwrap().len(), 3);
    assert!(parse_source("a.xml", text.to_string()).is_none());
    assert_eq!(parse_source("a.drawio", UNEVEN_DRAWIO.to_string()).unwrap().len(), 4);
}

#[test]
fn text_automaton_with_type_line() {
    let a = parse_text_automaton("t DFA\ns 1\nf 2\n1 2 a\n".to_string()).expect("a DFA");
    assert!(a.accepts("a"));
    assert!(!a.accepts("aa"));
    assert!(parse_text_automaton("s 1\nf 2\n1 2 a\n".to_string()).is_none());
    assert!(parse_text_automaton("t TM\ns 1\n1 2 a\n".to_string()).is_none());
}

const PLAIN_LAYOUT: &str = r#"<mxGraphModel><root>
<mxCell id="0"/>
<mxCell id="1" parent="0"/>
<mxCell id="a" vertex="1" parent="1"/>
<object id="b"><mxCell vertex="1" parent="1"/></object>
<mxCell id="s" edge="1" target="a" parent="1"/>
<mxCell id="e1" value="x" edge="1" source="a" target="b" parent="1"/>
<mxCell id="e2" edge="1" source="b" target="a" parent="1"/>
</root></mxGraphModel>"#;

#[test]
fn plain_layout_diagram() {
    let a = parse_xml_automaton(PLAIN_LAYOUT.to_string()).expect("a DFA");
    assert!(a.accepts("x"));
    assert!(a.accepts("xex"));
    assert!(!a.accepts(""));
    assert!(!a.accepts("xe"));
    let floating = r#"<root><mxCell id="s" edge="1" parent="1"/></root>"#;
    assert!(parse_xml_automaton(floating.to_string()).is_none());
}
