//! The grammar of extensions.
pub mod condstore_qresync;
pub mod lists;
pub mod results;
pub mod rev2;
pub mod searches;
pub mod texts;
