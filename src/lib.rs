//! Execution and comparison of finite and pushdown automata.
//!
//! Automata are built from a list of declarations (`data`), read from a
//! line-oriented text (`parsing`) or a diagram in XML (`xml`, `source`). Each kind
//! (`dfa`, `nfa`, `pda`, `kpda`, the last two over the shared simulation of
//! `pushdown`) decides acceptance of words and describes itself (`describe`);
//! `automaton` puts the kinds under one type, and `evaluation` scores and compares
//! automata on word lists and on generated words.
pub mod automaton;
pub mod data;
pub mod describe;
pub mod dfa;
pub mod evaluation;
pub mod kpda;
pub mod nfa;
pub mod parsing;
pub mod pda;
pub mod pushdown;
pub mod source;
pub mod text;
pub mod xml;
