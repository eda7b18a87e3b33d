//! The reader of dumps, and the statements it yields.

pub mod comment;
pub mod reader;
pub mod statement;
pub mod statements;

pub use self::reader::DumpReader;
pub use self::statement::Statement;
pub use self::statement::StatementType;
pub use self::statements::Statements;
