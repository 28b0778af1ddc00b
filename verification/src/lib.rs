//! A scanner library: runtime scanning with DFAs and scanner modes.
pub mod class_table;
pub mod text;
pub mod types;
pub mod regex_ast;
pub mod character_classes;
pub mod dfa_sim;
pub mod dynamic_state;
pub mod match_types;
pub mod scanner_impl;
pub mod find_matches;
pub mod test_scanner;
pub mod dynamic;
pub mod pattern;
pub mod nfa;
pub mod nfa_language;
pub mod dfa;
pub mod minimizer;
pub mod scanner_mode;
pub mod scanner_data;
pub mod generate;
pub mod tokens;
pub mod keyword;
pub mod dsl;
pub mod scanner;
pub mod laws;
