pub mod logging;
pub mod print;
pub mod proc;
pub mod text;
