//! Reading and rewriting PostgreSQL plain-text dumps.
//!
//! A dump is read line by line into statements; each statement remembers
//! where it stood in the dump and, when a table-of-contents comment preceded
//! it, the entry that comment names.  The statements can then be rewritten:
//! table constraints moved into `ALTER TABLE` statements of their own, and
//! text replaced throughout.

pub mod text;
pub mod dump_reader;
pub mod import;
pub mod types;
