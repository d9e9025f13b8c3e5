pub mod dominant;
pub mod flow;
pub mod ud;
pub mod du;
pub mod program;
pub mod input;
