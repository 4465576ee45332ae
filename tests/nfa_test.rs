use automata::automaton::{build_automaton, Automaton, AutomatonType};
use automata::data::AutomatonData;
use automata::dfa::DFA;
use automata::evaluation::generated_comparison;
use automata::nfa::NFA;
use automata::parsing::parse_text;

// Words over a, b, c that contain `aa` or `bb`, tracked deterministically.
const EQUIV_NFA: &str = "s 1\nf 4\n1 2 a\n1 3 b\n1 1 c\n2 4 a\n2 3 b\n2 1 c\n3 2 a\n3 4 b\n3 1 c\n4 4 a\n4 4 b\n4 4 c\n";
// The same language, guessing where the pair starts.
const EQUIV_NFA1: &str = "s 1\nf 4\n1 1 a\n1 1 b\n1 1 c\n1 2 a\n2 4 a\n1 3 b\n3 4 b\n4 4 a\n4 4 b\n4 4 c\n";
// The same language again, with one start state for each pair.
const EQUIV_NFA2: &str = "s 1\ns 5\nf 4\n1 1 a\n1 1 b\n1 1 c\n1 2 a\n2 4 a\n5 5 a\n5 5 b\n5 5 c\n5 6 b\n6 4 b\n4 4 a\n4 4 b\n4 4 c\n";

fn load(text: &str) -> Automaton {
    let data = parse_text(text.to_string()).expect("description should parse");
    match build_automaton(AutomatonType::NFA, data) {
        Ok(a) => a,
        Err(e) => panic!("could not build automaton: {:?}", e),
    }
}

fn test_against(text: &str, accept: &[&str], reject: &[&str]) {
    let a = load(text);
    accept.iter().for_each(|word| assert!(a.accepts(word), "should accept {word:?}"));
    reject.iter().for_each(|word| assert!(!a.accepts(word), "should reject {word:?}"));
}

fn test_compare(text: &str, text2: &str, equivalent: bool) {
    let a1 = load(text);
    let a2 = load(text2);
    assert!(generated_comparison(&a1, &a2) == if equivalent { 1 } else { 0 });
}

fn view_test(texts: &[&str]) {
    for text in texts {
        let description = load(text).view();
        assert!(description.starts_with("Type: NFA\nFinal States: "));
    }
}

#[test]
fn nfa_test_parse_text() {}

#[test]
fn nfa_test_view() {
    view_test(&[EQUIV_NFA, EQUIV_NFA1, EQUIV_NFA2]);
}

#[test]
fn nfa_test_test_simulation() {
    test_against(EQUIV_NFA1, &["abbbba", "baa", "bbcbcc"], &["bccb", "acba", "abc", ""]);
}

#[test]
fn nfa_test_test_comparison() {
    test_compare(EQUIV_NFA, EQUIV_NFA1, true);
    test_compare(EQUIV_NFA1, EQUIV_NFA2, true);
}

#[test]
fn nfa_two_start_states() {
    let a = load("s 1\ns 2\nf 3\n1 3 a\n2 3 b\n");
    assert!(a.accepts("a"));
    assert!(a.accepts("b"));
    assert!(!a.accepts("c"));
}

#[test]
fn nfa_matches_dfa_on_deterministic_description() {
    let text = "s 1\nf 2\n1 2 a\n2 1 a\n2 3 b\n3 2 b\n";
    let nfa = NFA::new(parse_text(text.to_string()).unwrap()).ok().unwrap();
    let dfa = DFA::new(parse_text(text.to_string()).unwrap()).ok().unwrap();
    for word in ["", "a", "aa", "ab", "abb", "abba", "b", "aab"] {
        assert_eq!(nfa.accepts(word), dfa.accepts(word), "on {word:?}");
    }
}

#[test]
fn nfa_without_start_state_is_refused() {
    let data = vec![AutomatonData::Edge(1, 2, "a".to_string()), AutomatonData::Final(2)];
    assert!(NFA::new(data).is_err());
}

#[test]
fn nfa_view_exact() {
    let a = load("s 2\nf 3\ns 1\n2 3 a\n1 3 b\n1 2 a\n");
    assert_eq!(
        a.view(),
        "Type: NFA\nFinal States: 2\nStart States: 1, 3\nState 1:\n    a -> 2\nState 3:\n    b -> 2\n    a -> 1"
    );
}

#[test]
fn nfa_epsilon_label_is_not_in_alphabet() {
    let data = vec![
        AutomatonData::Start(1),
        AutomatonData::Edge(1, 2, " ".to_string()),
        AutomatonData::Edge(1, 2, "b".to_string()),
    ];
    let n = NFA::new(data).ok().unwrap();
    assert_eq!(n.alphabet(), &vec!['b']);
}
