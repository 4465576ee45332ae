use automata::automaton::{build_automaton, Automaton, AutomatonType};
use automata::data::{AutomatonData, ConstructionError};
use automata::dfa::DFA;
use automata::evaluation::generated_comparison;
use automata::parsing::parse_text;

// Odd number of `a`s.
const IS_UNEVEN_DFA_GR: &str = "t DFA\nc odd number of a\ns q0\nf q1\nq0 q1 a\nq1 q0 a\n";
// The same language, with other state names.
const IS_UNEVEN_DFA_XML: &str = "s even\nf odd\neven odd a\nodd even a\n";
// Odd number of `a`s, at most five.
const IS_UNEVEN_CAPPED: &str = "s 1\nf 2\nf 4\nf 6\n1 2 a\n2 3 a\n3 4 a\n4 5 a\n5 6 a\n";
// `c`, then `a` or `b`, then `a` to finish or `d` to start over.
const CAROUSEL: &str = "s 1\nf 4\n1 2 c\n2 3 a\n2 3 b\n3 4 a\n3 1 d\n";
// Exactly `uwu`.
const IMPORTANT_DFA: &str = "s 1\nf 4\n1 2 u\n2 3 w\n3 4 u\n";
// Prefixes of `uwu` followed by any number of `u`s.
const DFA_EMPTY_TEST: &str = "s 1\nf 1\nf 2\nf 3\nf 4\n1 2 u\n2 3 w\n3 4 u\n4 4 u\n";

fn load(text: &str) -> Automaton {
    let data = parse_text(text.to_string()).expect("description should parse");
    match build_automaton(AutomatonType::DFA, data) {
        Ok(a) => a,
        Err(e) => panic!("could not build automaton: {:?}", e),
    }
}

fn test_against(text: &str, accept: &[&str], reject: &[&str]) {
    let a = load(text);
    accept.iter().for_each(|word| assert!(a.accepts(word), "should accept {word:?}"));
    reject.iter().for_each(|word| assert!(!a.accepts(word), "should reject {word:?}"));
}

fn test_compare(text: &str, text2: &str, equivalent: bool) {
    let a1 = load(text);
    let a2 = load(text2);
    assert!(generated_comparison(&a1, &a2) == if equivalent { 1 } else { 0 });
}

fn view_test(texts: &[&str]) {
    for text in texts {
        let description = load(text).view();
        assert!(description.starts_with("Type: DFA\nFinal States: "));
    }
}

#[test]
fn dfa_test_parse_text() {
    parse_text(IS_UNEVEN_DFA_GR.to_string()).unwrap();
    parse_text(DFA_EMPTY_TEST.to_string()).unwrap();
}

#[test]
fn dfa_test_view() {
    view_test(&[
        IS_UNEVEN_DFA_GR,
        IS_UNEVEN_DFA_XML,
        IS_UNEVEN_CAPPED,
        CAROUSEL,
        IMPORTANT_DFA,
        DFA_EMPTY_TEST,
    ]);
}

#[test]
fn dfa_test_test_simulation() {
    test_against(IS_UNEVEN_DFA_XML, &["a", "aaa", "aaaaa"], &["aa", "aaaa", "aaaaaa", ""]);
    test_against(IMPORTANT_DFA, &["uwu"], &["aa", "uwwu", "uwuw", ""]);
    test_against(DFA_EMPTY_TEST, &["uwu", "", "uw", "uwuuuuu"], &["aa", "uwwu", "uwuw"]);
    test_against(CAROUSEL, &["caa", "cba", "cbdcaa"], &["cc", "", "caba", "cea"]);
}

#[test]
fn dfa_test_test_comparison() {
    test_compare(IS_UNEVEN_DFA_GR, IS_UNEVEN_DFA_XML, true);
    test_compare(IS_UNEVEN_DFA_XML, IS_UNEVEN_CAPPED, false);
    test_compare(IS_UNEVEN_CAPPED, CAROUSEL, false);
    test_compare(IMPORTANT_DFA, DFA_EMPTY_TEST, false);
}

#[test]
fn dfa_two_state_example() {
    let a = load("s 1\nf 2\n1 2 a\n2 1 a\n");
    assert!(a.accepts("a"));
    assert!(!a.accepts("aa"));
    assert!(!a.accepts(""));
}

#[test]
fn dfa_accepts_is_repeatable() {
    let a = load(CAROUSEL);
    for word in ["caa", "cc", "", "cbdcaa"] {
        let first = a.accepts(word);
        for _ in 0..3 {
            assert_eq!(a.accepts(word), first);
        }
    }
}

#[test]
fn dfa_missing_edge_is_sticky() {
    // `b` has no transition from 1; the word ends in the final state anyway.
    let a = load("s 1\nf 1\n1 1 a\n");
    assert!(a.accepts("aa"));
    assert!(!a.accepts("ba"));
    assert!(!a.accepts("ab"));
}

#[test]
fn dfa_last_transition_wins_and_last_start_wins() {
    let a = load("s 1\ns 2\nf 3\n1 3 a\n2 1 a\n2 3 a\n");
    assert!(a.accepts("a"));
    assert!(!a.accepts("aa"));
}

#[test]
fn dfa_multi_character_label_is_left_out() {
    let a = load("s 1\nf 2\n1 2 ab\n1 2 b\n");
    assert!(a.accepts("b"));
    assert!(!a.accepts("ab"));
    assert_eq!(a.alphabet(), &vec!['b']);
}

#[test]
fn dfa_construction_errors() {
    let no_edges = vec![AutomatonData::Start(1), AutomatonData::Final(1)];
    assert!(matches!(DFA::new(no_edges), Err(ConstructionError::NoStates)));
    let no_start = vec![AutomatonData::Edge(1, 2, "a".to_string()), AutomatonData::Final(2)];
    assert!(matches!(DFA::new(no_start), Err(ConstructionError::MissingStartState)));
    let no_final = vec![AutomatonData::Edge(1, 2, "a".to_string()), AutomatonData::Start(1)];
    let d = DFA::new(no_final).ok().expect("no final state is allowed");
    assert!(!d.accepts("a"));
}

#[test]
fn dfa_alphabet_in_order_of_first_use() {
    let a = load(CAROUSEL);
    assert_eq!(a.alphabet(), &vec!['c', 'a', 'b', 'd']);
}

#[test]
fn dfa_view_exact() {
    let a = load("s 1\nf 2\n2 1 b\n1 2 a\n2 1 a\n1 2 b\n2 2 b\n");
    assert_eq!(
        a.view(),
        "Type: DFA\nFinal States: 2\nStart State: 1\nState 1:\n    a -> 2\n    b -> 2\nState 2:\n    a -> 1\n    b -> 2"
    );
}

#[test]
fn dfa_epsilon_label_is_not_in_alphabet() {
    let data = vec![
        AutomatonData::Start(1),
        AutomatonData::Final(2),
        AutomatonData::Edge(1, 2, " ".to_string()),
        AutomatonData::Edge(1, 2, "a".to_string()),
    ];
    let d = DFA::new(data).ok().unwrap();
    assert_eq!(d.alphabet(), &vec!['a']);
    assert!(!d.accepts(" "));
    assert!(d.accepts("a"));
}

#[test]
fn dfa_with_only_unreadable_labels_is_built() {
    let data = vec![AutomatonData::Start(1), AutomatonData::Edge(1, 2, "ab".to_string())];
    let d = DFA::new(data).ok().expect("edges exist, so the DFA has states");
    assert!(d.alphabet().is_empty());
    assert!(!d.accepts("ab"));
}
