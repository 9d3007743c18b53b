//! A verified IMAP codec: the grammar of commands and responses, what a client
//! may send, and bounded streaming of responses.
pub mod answers;
pub mod append;
pub mod arguments;
pub mod ascii;
pub mod body;
pub mod capability_set;
pub mod client_capabilities;
pub mod codec;
pub mod command;
pub mod date;
pub mod encode;
pub mod extensions;
pub mod fetch;
pub mod flag;
pub mod fragmentizer;
pub mod grammar;
pub mod mailbox;
pub mod needs;
pub mod number;
pub mod payloads;
pub mod reading;
pub mod response;
pub mod rev2;
pub mod roundtrip;
pub mod search;
pub mod sequence;
pub mod shapes;
pub mod spelling;
pub mod status;
pub mod strings;
pub mod structure;
pub mod threads;
pub mod utf8;
