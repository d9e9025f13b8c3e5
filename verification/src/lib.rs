//! Context-free grammar analysis: FIRST/FOLLOW sets, LL(1), LR(0), SLR(1),
//! LR(1) and LALR(1) item sets and parse tables, table driven parsing,
//! finite automata and data-flow analysis of flow graphs.
pub mod grammar;
pub mod utils;
pub mod first_follow_set;
pub mod lr0;
pub mod token;
pub mod parse_tree;
pub mod lr_table;
pub mod slr1;
pub mod lr1;
pub mod ll_table;
pub mod ll1;
pub mod lalr1;
pub mod automaton;
pub mod optimization;
