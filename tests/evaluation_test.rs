use automata::automaton::{
    build_automaton, construction_warnings, determine_automaton_type, path_to_automaton_type,
    Automaton, AutomatonType, ConstructionWarning,
};
use automata::describe::format_states;
use automata::evaluation::{
    draw_samples, exhaustive_agreement, fixed_comparison, fixed_test, full_comparison_fraction,
    generated_comparison, generated_comparison_on, make_word, sampled_agreement, word_lines,
    RANDOM_LENGTHS, RANDOM_WORDS,
};
use automata::parsing::{parse_text, IdGenerator};
use automata::text::parse_char;

fn load(kind: AutomatonType, text: &str) -> Automaton {
    let data = parse_text(text.to_string()).expect("description should parse");
    match build_automaton(kind, data) {
        Ok(a) => a,
        Err(e) => panic!("could not build automaton: {:?}", e),
    }
}

// Accepts exactly `a`.
const ONLY_A: &str = "s 1\nf 2\n1 2 a\n1 3 b\n";
// Accepts `a` and `b`.
const A_OR_B: &str = "s 1\nf 2\n1 2 a\n1 2 b\n";

#[test]
fn test_wordgen() {
    let a = ['a', 'b', 'c'];
    assert_eq!(make_word(25, 3, &a), "bcc");
}

#[test]
fn make_word_single_symbols() {
    let a = ['x', 'y', 'z'];
    for (seed, c) in a.iter().enumerate() {
        assert_eq!(make_word(seed as u64, 0, &a), c.to_string());
    }
}

#[test]
fn make_word_pads_with_first_symbol() {
    let a = ['a', 'b'];
    assert_eq!(make_word(0, 4, &a), "aaaa");
    assert_eq!(make_word(6, 0, &a), "abb");
    assert_eq!(make_word(6, 5, &a), "abbaa");
    assert_eq!(make_word(0, 0, &['q']), "q");
    assert_eq!(make_word(0, 3, &['q']), "qqq");
}

#[test]
fn fixed_comparison_scores_agreement() {
    let a1 = load(AutomatonType::DFA, ONLY_A);
    let a2 = load(AutomatonType::DFA, A_OR_B);
    assert_eq!(fixed_comparison(&a1, &a2, "a 5\nb 3\n"), Some((5, 8)));
}

#[test]
fn fixed_comparison_skips_empty_lines_and_refuses_malformed_ones() {
    let a1 = load(AutomatonType::DFA, ONLY_A);
    let a2 = load(AutomatonType::DFA, A_OR_B);
    assert_eq!(fixed_comparison(&a1, &a2, "a 5\n\n   \nb +3\r\n"), Some((5, 8)));
    assert_eq!(fixed_comparison(&a1, &a2, "a 5\nb\n"), None);
    assert_eq!(fixed_comparison(&a1, &a2, "a five\n"), None);
    assert_eq!(fixed_comparison(&a1, &a2, "a 18446744073709551615\na 1\n"), None);
    assert_eq!(fixed_comparison(&a1, &a2, ""), Some((0, 0)));
}

#[test]
fn fixed_test_counts_accepted_lines() {
    let a = load(AutomatonType::DFA, A_OR_B);
    assert_eq!(fixed_test(&a, "a\nb\nc\n\nab"), 2);
    assert_eq!(word_lines("a\r\nb\n\nc"), vec!["a", "b", "", "c"]);
}

#[test]
fn full_comparison_fraction_combines_scores() {
    let a1 = load(AutomatonType::DFA, ONLY_A);
    let a2 = load(AutomatonType::DFA, A_OR_B);
    assert_eq!(full_comparison_fraction(&a1, &a2, "a 5\nb 3\n"), Some((5, 9)));
    assert_eq!(full_comparison_fraction(&a1, &a1, "a 5\nb 3\n"), Some((9, 9)));
}

#[test]
fn generated_comparison_is_reflexive() {
    let a = load(AutomatonType::NFA, "s 1\nf 2\n1 2 a\n2 2 b\n2 1 a\n");
    assert_eq!(generated_comparison(&a, &a), 1);
}

#[test]
fn generated_comparison_is_symmetric() {
    let a1 = load(AutomatonType::DFA, ONLY_A);
    let a2 = load(AutomatonType::DFA, "s 1\nf 2\n1 2 a\n1 1 b\n");
    assert_eq!(a1.alphabet(), a2.alphabet());
    assert_eq!(generated_comparison(&a1, &a2), generated_comparison(&a2, &a1));
    assert_eq!(generated_comparison(&a1, &a2), 0);
}

#[test]
fn generated_comparison_on_given_samples() {
    let a1 = load(AutomatonType::DFA, ONLY_A);
    let a2 = load(AutomatonType::DFA, A_OR_B);
    assert!(!exhaustive_agreement(&a1, &a2, &['a', 'b']));
    assert!(exhaustive_agreement(&a1, &a1, &['a', 'b']));
    assert!(sampled_agreement(&a1, &a2, &['a', 'b'], &vec![(0, 1), (2, 3)]));
    assert!(!sampled_agreement(&a1, &a2, &['a', 'b'], &vec![(1, 1)]));
    assert_eq!(generated_comparison_on(&a1, &a2, &vec![]), 0);
    assert_eq!(generated_comparison_on(&a1, &a1, &vec![(1, 1)]), 1);
}

#[test]
fn drawn_samples_are_in_range() {
    let samples = draw_samples(3);
    assert_eq!(samples.len(), RANDOM_WORDS);
    for (seed, len) in samples.iter() {
        assert!((*len as u64) < RANDOM_LENGTHS);
        assert!(*seed < 3u64.pow(*len as u32));
    }
    assert_eq!(samples, draw_samples(3));
    assert!(samples.iter().any(|(_, len)| *len > 10));
}

#[test]
fn automaton_type_names() {
    assert_eq!(determine_automaton_type("dfa"), Some(AutomatonType::DFA));
    assert_eq!(determine_automaton_type("NFA"), Some(AutomatonType::NFA));
    assert_eq!(determine_automaton_type("Pda"), Some(AutomatonType::PDA));
    assert_eq!(determine_automaton_type("kpda"), Some(AutomatonType::KPDA));
    assert_eq!(determine_automaton_type("tm"), None);
    assert_eq!(path_to_automaton_type("data/DFA/x.gr"), Some("dfa".to_string()));
    assert_eq!(path_to_automaton_type("data/pda/nfa.xml"), Some("nfa".to_string()));
    assert_eq!(path_to_automaton_type("data/pda/x.xml"), Some("pda".to_string()));
    assert_eq!(path_to_automaton_type("data/x.xml"), None);
}

#[test]
fn parse_char_reads_symbols() {
    assert_eq!(parse_char(" a "), 'a');
    assert_eq!(parse_char("e"), ' ');
    assert_eq!(parse_char("ab"), ' ');
    assert_eq!(parse_char(""), ' ');
    assert_eq!(parse_char("#"), '#');
}

#[test]
fn format_states_lists() {
    assert_eq!(format_states(&[]), "None");
    assert_eq!(format_states(&[7]), "7");
    assert_eq!(format_states(&[3, 10, 205]), "3, 10, 205");
}

#[test]
fn parse_text_reads_declarations() {
    let data = parse_text("c comment\nt DFA\ns q\nf r\nq r a\nr q\nlonely\n".to_string()).unwrap();
    assert_eq!(data.len(), 4);
    assert!(parse_text("s\n".to_string()).is_none());
    assert!(parse_text("f\n".to_string()).is_none());
    let a = load(AutomatonType::DFA, "s q\nf r\nq r\n");
    assert!(a.accepts("e"));
}

#[test]
fn id_generator_numbers_names_by_first_mention() {
    let mut ids = IdGenerator::new();
    let q: Vec<char> = "q".chars().collect();
    let r: Vec<char> = "r".chars().collect();
    assert_eq!(ids.get(&q), Some(1));
    assert_eq!(ids.get(&r), Some(2));
    assert_eq!(ids.get(&q), Some(1));
}

#[test]
fn construction_warnings_are_reported() {
    let data = parse_text("s 1\ns 2\n1 2 ab\n1 2 a\n".to_string()).unwrap();
    assert_eq!(
        construction_warnings(AutomatonType::DFA, &data),
        vec![
            ConstructionWarning::DuplicateStartState,
            ConstructionWarning::NoFinalStates,
            ConstructionWarning::UnparseableLabel
        ]
    );
    assert_eq!(
        construction_warnings(AutomatonType::NFA, &data),
        vec![ConstructionWarning::NoFinalStates, ConstructionWarning::UnparseableLabel]
    );
    let pda = parse_text("s 1\nf 2\n1 2 a,#,#\n".to_string()).unwrap();
    assert_eq!(construction_warnings(AutomatonType::PDA, &pda), vec![]);
    assert_eq!(construction_warnings(AutomatonType::KPDA, &pda), vec![]);
    assert_eq!(
        construction_warnings(AutomatonType::DFA, &pda),
        vec![ConstructionWarning::UnparseableLabel]
    );
}

#[test]
fn generated_comparison_uses_the_seeded_samples() {
    let a1 = load(AutomatonType::DFA, ONLY_A);
    let a2 = load(AutomatonType::DFA, A_OR_B);
    let samples = draw_samples(a2.alphabet().len());
    assert_eq!(generated_comparison(&a1, &a2), generated_comparison_on(&a1, &a2, &samples));
    assert_eq!(generated_comparison(&a1, &a1), generated_comparison_on(&a1, &a1, &samples));
}

#[test]
fn exhaustive_agreement_checks_the_empty_word() {
    // Both accept exactly the words of one or more `a`s, but only the second accepts "".
    let a1 = load(AutomatonType::NFA, "s 1\nf 2\n1 2 a\n2 2 a\n");
    let a2 = load(AutomatonType::NFA, "s 1\nf 1\nf 2\n1 2 a\n2 2 a\n");
    assert!(!exhaustive_agreement(&a1, &a2, &['a']));
    assert_eq!(generated_comparison(&a1, &a2), 0);
    assert!(exhaustive_agreement(&a2, &a2, &['a']));
}
