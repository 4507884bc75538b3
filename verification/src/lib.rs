//! Recognizers for context-free grammars over single-character symbols.
//!
//! A [`CFGrammar`] holds terminals, non-terminals and productions, augmented
//! with a reserved start production. Two recognizers answer whether a word
//! belongs to the language of a grammar: [`earley::EarleyParser`], for every
//! context-free grammar, and [`lr::LR1Parser`], for grammars whose LR(1)
//! action table has no conflicts.
//!
//! What it means for a grammar to derive a word is defined in
//! [`derivation`]. Both recognizers reject every word that holds a symbol
//! which is no terminal. The Earley recognizer is proved to accept exactly
//! the words of the language of its grammar. The LR(1) recognizer is proved
//! to hold the action table of the automaton of its grammar, to accept only
//! words of the language, and to accept every word of the language when no
//! right-hand side is empty and its step limit is enough; see [`laws`] and
//! [`lr_laws`].
//!
//! The grammar is stored in a `multimap::MultiMap` and in hash sets of
//! characters; what is taken on trust about them is stated in [`store`].
pub mod closure;
pub mod counting;
pub mod derivation;
pub mod earley;
pub mod earley_laws;
pub mod first;
pub mod first_laws;
pub mod grammar;
pub mod items;
pub mod laws;
pub mod loader;
pub mod lr;
pub mod lr_complete;
pub mod lr_laws;
pub mod lr_sound;
pub mod recognizer;
pub mod states;
pub mod store;
pub mod table;

pub use grammar::{CFGrammar, CFRule, END_TERMINAL, EPS_TERMINAL, START_RULE};
pub use loader::LoadError;
pub use multimap::MultiMap;
pub use recognizer::{FitError, Parser};
pub use std::collections::HashSet;
pub use std::str::FromStr;
