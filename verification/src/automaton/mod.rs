pub mod dfa;
pub mod nfa;
pub mod subset;
pub mod minimize;
pub mod laws;
pub mod input;
pub mod split;
