use automata::automaton::{build_automaton, Automaton, AutomatonType};
use automata::data::{AutomatonData, ConstructionError};
use automata::evaluation::generated_comparison;
use automata::kpda::KPDA;
use automata::parsing::parse_text;
use automata::pda::PDA;

// a^n b^(n+1), accepted in a final state.
const PDA_XML: &str = "s 1\nf 3\n1 1 a,#,#A\n1 1 a,A,AA\n1 3 b,#,#\n1 2 b,A,\n2 2 b,A,\n2 3 b,#,#\n";
// a^n b^n for n at least one, accepted by empty stacks.
const PDA_COMPLI: &str = "s 1\n1 1 a,#,X\n1 1 a,X,XX\n1 2 b,X,\n2 2 b,X,\n";

fn load(text: &str) -> Automaton {
    let data = parse_text(text.to_string()).expect("description should parse");
    match build_automaton(AutomatonType::PDA, data) {
        Ok(a) => a,
        Err(e) => panic!("could not build automaton: {:?}", e),
    }
}

fn test_against(text: &str, accept: &[&str], reject: &[&str]) {
    let a = load(text);
    accept.iter().for_each(|word| assert!(a.accepts(word), "should accept {word:?}"));
    reject.iter().for_each(|word| assert!(!a.accepts(word), "should reject {word:?}"));
}

fn test_compare(text: &str, text2: &str, equivalent: bool) {
    let a1 = load(text);
    let a2 = load(text2);
    assert!(generated_comparison(&a1, &a2) == if equivalent { 1 } else { 0 });
}

fn view_test(texts: &[&str]) {
    for text in texts {
        let description = load(text).view();
        assert!(description.starts_with("Type: PDA\nFinal States: "));
    }
}

#[test]
fn pda_test_parse_text() {}

#[test]
fn pda_test_view() {
    view_test(&[PDA_XML, PDA_COMPLI]);
}

#[test]
fn pda_test_test_simulation() {
    test_against(PDA_XML, &["aaabbbb", "abb", "aabbb"], &["bccb", "aabba", "aaabb", ""]);
}

#[test]
fn pda_test_test_comparison() {
    test_compare(PDA_XML, PDA_COMPLI, false);
}

#[test]
fn pda_balanced_parentheses() {
    let a = load("s 1\n1 1 (,#,X\n1 1 (,X,XX\n1 1 ),X,\n");
    assert!(a.accepts("()"));
    assert!(!a.accepts("("));
    assert!(!a.accepts(")("));
}

#[test]
fn pda_epsilon_moves_before_each_symbol() {
    // An epsilon move from 1 to 2 must be taken before `a` can be read.
    let a = load("s 1\nf 3\n1 2 e,#,#\n2 3 a,#,#\n");
    assert!(a.accepts("a"));
    assert!(!a.accepts(""));
    assert!(!a.accepts("aa"));
}

#[test]
fn pda_unbounded_epsilon_loop_terminates() {
    // The epsilon move grows the stack forever; the simulation still ends.
    let a = load("s 1\nf 2\n1 1 e,#,##\n1 2 a,#,#\n");
    assert!(a.accepts("a"));
    assert!(!a.accepts("b"));
}

#[test]
fn pda_alphabet_leaves_out_epsilon() {
    let a = load(PDA_XML);
    assert_eq!(a.alphabet(), &vec!['a', 'b']);
    let b = load("s 1\n1 2 e,#,#\n2 2 x,#,\n");
    assert_eq!(b.alphabet(), &vec!['x']);
}

#[test]
fn pda_short_label_is_left_out() {
    let a = load("s 1\nf 2\n1 2 a,#\n1 2 b,#,#\n");
    assert!(!a.accepts("a"));
    assert!(a.accepts("b"));
}

#[test]
fn pda_view_exact() {
    let a = load("s 1\nf 2\n1 2 a,#,#A\n");
    assert_eq!(a.view(), "Type: PDA\nFinal States: 2\nStart States: 1\nState 1:\n    a # -> 2 #A");
}

#[test]
fn kpda_two_stacks() {
    // a^n b^n c^n for n at least one, accepted by empty stacks: the first stack
    // counts the a's against the b's, the second against the c's.
    let text = "s 1\n1 1 a,#,#A,#,A\n1 1 a,A,AA,A,AA\n1 2 b,A,,A,A\n2 2 b,A,,A,A\n2 3 c,#,#,A,\n3 3 c,#,#,A,\n2 4 c,#,,A,\n3 4 c,#,,A,\n";
    let a = match build_automaton(AutomatonType::KPDA, parse_text(text.to_string()).unwrap()) {
        Ok(a) => a,
        Err(e) => panic!("could not build automaton: {:?}", e),
    };
    assert!(a.accepts("abc"));
    assert!(a.accepts("aabbcc"));
    assert!(!a.accepts("aabbc"));
    assert!(!a.accepts("abbc"));
    assert!(!a.accepts("aabc"));
    assert!(!a.accepts(""));
    assert!(a.view().starts_with("Type: KPDA\nFinal States: None\nStart States: 1\nState 1:\n    a #,# -> 1 #A,A"));
}

#[test]
fn kpda_arity_mismatch() {
    let data = vec![
        AutomatonData::Start(1),
        AutomatonData::Edge(1, 1, "a,#,#".to_string()),
        AutomatonData::Edge(1, 1, "a,#,#,#,#".to_string()),
    ];
    assert!(matches!(KPDA::new(data), Err(ConstructionError::ArityMismatch)));
}

#[test]
fn kpda_of_one_stack_matches_pda() {
    let text = PDA_XML;
    let p = PDA::new(parse_text(text.to_string()).unwrap()).ok().unwrap();
    let k = KPDA::new(parse_text(text.to_string()).unwrap()).ok().unwrap();
    for word in ["", "b", "abb", "aabbb", "aabb", "ba", "aaabbbb"] {
        assert_eq!(p.accepts(word), k.accepts(word), "on {word:?}");
    }
}

#[test]
fn pda_with_neutral_stack_matches_dfa() {
    let dfa_text = "s 1\nf 2\n1 2 a\n2 1 a\n2 3 b\n3 2 b\n";
    let pda_text = "s 1\nf 2\n1 2 a,#,#\n2 1 a,#,#\n2 3 b,#,#\n3 2 b,#,#\n";
    let dfa = automata::dfa::DFA::new(parse_text(dfa_text.to_string()).unwrap()).ok().unwrap();
    let pda = PDA::new(parse_text(pda_text.to_string()).unwrap()).ok().unwrap();
    for word in ["", "a", "aa", "ab", "abb", "abba", "b", "aab", "aaa"] {
        assert_eq!(pda.accepts(word), dfa.accepts(word), "on {word:?}");
    }
}

#[test]
fn pda_epsilon_move_after_last_symbol() {
    let text = "s 1\nf 2\n1 3 a,#,#\n3 2 e,#,#\n";
    let a = load(text);
    assert!(a.accepts("a"));
    assert!(!a.accepts(""));
    assert!(!a.accepts("aa"));
    let k = KPDA::new(parse_text(text.to_string()).unwrap()).ok().unwrap();
    assert!(k.accepts("a"));
}

#[test]
fn pda_epsilon_move_at_start_empties_stack() {
    // Accepted by empty stack: an epsilon move pops the bottom marker at once.
    let a = load("s 1\n1 2 e,#,\n");
    assert!(a.accepts(""));
    assert!(!a.accepts("x"));
}
