//! A parser generator and parse driver for context-free grammars.
//!
//! A grammar is analysed (FIRST and FOLLOW sets, validity), a canonical LR(1)
//! automaton and its tables are built from it, and a token sequence is parsed
//! with an LL(1), an LR(1) or a hybrid LLLR(1) driver, each of which emits a
//! sequence of rule IDs.

pub mod symbol;
pub mod bits;
pub mod rule;
pub mod analysis;
pub mod action;
pub mod matcher;
pub mod util;
pub mod grammar;
pub mod validity;
pub mod wrap;
pub mod transition;
pub mod item;
pub mod intern;
pub mod state;
pub mod unique;
pub mod derive;
pub mod automaton;
pub mod table;
pub mod tables;
pub mod collection;
pub mod data;
pub mod token;
pub mod lltable;
pub mod parser;
pub mod ll;
pub mod lr;
pub mod lllr;
pub mod lllrtables;
pub mod layout;
pub mod lexer;
pub mod reader;
pub mod derivation;
pub mod empty;
pub mod agreement;
