pub mod text;
pub mod record;
pub mod lexer;
pub mod grammar;
pub mod ledger;
pub mod codec;
pub mod replay;
pub mod shell;
