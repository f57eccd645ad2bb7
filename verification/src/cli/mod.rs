//! Reading a client's command line: its words, the command they name, and
//! the replies the server gives.
pub mod parser;
pub mod command;
pub mod replies;
