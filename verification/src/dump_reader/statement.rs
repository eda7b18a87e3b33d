//! One statement of a dump, and the kinds of statement.

use vstd::prelude::*;

use crate::dump_reader::comment::CommentBlock;
use crate::text::{chars_of, decimal, decimal_chars, extend_chars, extend_str, same_chars, string_of};

verus! {

/// A table of contents of a dump (reserved; it holds nothing yet).
#[derive(Debug, Clone)]
pub struct Toc {}

/// The kind of object a statement creates, as its table-of-contents comment
/// names it.
#[derive(Debug, Clone, Copy, PartialEq, Eq, Structural)]
pub enum StatementType {
    Acl,
    Comment,
    Constraint,
    Extension,
    FkConstraint,
    Function,
    Index,
    Table,
    TableData,
    Command,
    Unknown,
}

/// The kind that a `Type:` name denotes: the names that pg_dump writes, and
/// `Unknown` for every other text.
pub open spec fn type_from_name(s: Seq<char>) -> StatementType {
    if s == "ACL"@ {
        StatementType::Acl
    } else if s == "COMMENT"@ {
        StatementType::Comment
    } else if s == "CONSTRAINT"@ {
        StatementType::Constraint
    } else if s == "EXTENSION"@ {
        StatementType::Extension
    } else if s == "FK CONSTRAINT"@ {
        StatementType::FkConstraint
    } else if s == "FUNCTION"@ {
        StatementType::Function
    } else if s == "INDEX"@ {
        StatementType::Index
    } else if s == "TABLE"@ {
        StatementType::Table
    } else if s == "TABLE DATA"@ {
        StatementType::TableData
    } else {
        StatementType::Unknown
    }
}

/// The text a kind is shown as.  `Constraint`, `Command` and `Unknown` are
/// all shown as `Unknown`.
pub open spec fn type_display(t: StatementType) -> Seq<char> {
    match t {
        StatementType::Acl => "ACL"@,
        StatementType::Comment => "COMMENT"@,
        StatementType::Extension => "EXTENSION"@,
        StatementType::FkConstraint => "FK CONSTRAINT"@,
        StatementType::Function => "FUNCTION"@,
        StatementType::Index => "INDEX"@,
        StatementType::Table => "TABLE"@,
        StatementType::TableData => "TABLE DATA"@,
        _ => "Unknown"@,
    }
}

/// Reading the name a kind is shown as gives the kind back, for every kind
/// but `Constraint` and `Command`, which are shown as `Unknown` and read
/// back as `Unknown`.
pub proof fn lemma_type_name_roundtrip(t: StatementType)
    ensures
        t != StatementType::Constraint && t != StatementType::Command ==> type_from_name(
            type_display(t),
        ) == t,
        type_from_name(type_display(StatementType::Constraint)) == StatementType::Unknown,
        type_from_name(type_display(StatementType::Command)) == StatementType::Unknown,
{
    reveal_strlit("ACL");
    reveal_strlit("COMMENT");
    reveal_strlit("CONSTRAINT");
    reveal_strlit("EXTENSION");
    reveal_strlit("FK CONSTRAINT");
    reveal_strlit("FUNCTION");
    reveal_strlit("INDEX");
    reveal_strlit("TABLE");
    reveal_strlit("TABLE DATA");
    reveal_strlit("Unknown");
    assert("ACL"@.len() == 3);
    assert("COMMENT"@.len() == 7 && "COMMENT"@[0] == 'C');
    assert("CONSTRAINT"@.len() == 10 && "CONSTRAINT"@[0] == 'C');
    assert("EXTENSION"@.len() == 9);
    assert("FK CONSTRAINT"@.len() == 13);
    assert("FUNCTION"@.len() == 8);
    assert("INDEX"@.len() == 5 && "INDEX"@[0] == 'I');
    assert("TABLE"@.len() == 5 && "TABLE"@[0] == 'T');
    assert("TABLE DATA"@.len() == 10 && "TABLE DATA"@[0] == 'T');
    assert("Unknown"@.len() == 7 && "Unknown"@[0] == 'U');
}

impl Default for StatementType {
    fn default() -> (res: Self)
        ensures
            res == StatementType::Unknown,
    {
        StatementType::Unknown
    }
}

impl StatementType {
    /// The kind that the name `s` denotes.
    pub fn from_name(s: &str) -> (res: StatementType)
        ensures
            res == type_from_name(s@),
    {
        let v = chars_of(s);
        if same_chars(&v, &chars_of("ACL")) {
            StatementType::Acl
        } else if same_chars(&v, &chars_of("COMMENT")) {
            StatementType::Comment
        } else if same_chars(&v, &chars_of("CONSTRAINT")) {
            StatementType::Constraint
        } else if same_chars(&v, &chars_of("EXTENSION")) {
            StatementType::Extension
        } else if same_chars(&v, &chars_of("FK CONSTRAINT")) {
            StatementType::FkConstraint
        } else if same_chars(&v, &chars_of("FUNCTION")) {
            StatementType::Function
        } else if same_chars(&v, &chars_of("INDEX")) {
            StatementType::Index
        } else if same_chars(&v, &chars_of("TABLE")) {
            StatementType::Table
        } else if same_chars(&v, &chars_of("TABLE DATA")) {
            StatementType::TableData
        } else {
            StatementType::Unknown
        }
    }

    /// The text this kind is shown as.
    pub fn name_chars(&self) -> (res: Vec<char>)
        ensures
            res@ == type_display(*self),
    {
        match self {
            StatementType::Acl => chars_of("ACL"),
            StatementType::Comment => chars_of("COMMENT"),
            StatementType::Extension => chars_of("EXTENSION"),
            StatementType::FkConstraint => chars_of("FK CONSTRAINT"),
            StatementType::Function => chars_of("FUNCTION"),
            StatementType::Index => chars_of("INDEX"),
            StatementType::Table => chars_of("TABLE"),
            StatementType::TableData => chars_of("TABLE DATA"),
            _ => chars_of("Unknown"),
        }
    }

    /// The text this kind is shown as.
    pub fn to_string(&self) -> (res: String)
        ensures
            res@ == type_display(*self),
    {
        let v = self.name_chars();
        string_of(&v)
    }
}

impl std::str::FromStr for StatementType {
    type Err = String;

    fn from_str(s: &str) -> (res: Result<Self, Self::Err>)
        ensures
            res == Ok::<StatementType, String>(type_from_name(s@)),
    {
        Ok(StatementType::from_name(s))
    }
}

/// One statement of a dump: its SQL text, where it stood in the dump, and
/// the table-of-contents entry it belongs to.
#[derive(Debug, Clone, PartialEq, Eq)]
pub struct Statement {
    /// The byte offsets of the statement's start and end in the dump.
    pub pos: Option<(usize, usize)>,
    /// The number of lines of the dump read before the statement.
    pub line: Option<usize>,
    pub sql: String,
    pub entry_id: Option<u32>,
    pub name: Option<String>,
    pub ty: StatementType,
}

/// A statement as a value.
pub struct StatementView {
    pub pos: Option<(usize, usize)>,
    pub line: Option<usize>,
    pub sql: Seq<char>,
    pub entry_id: Option<u32>,
    pub name: Option<Seq<char>>,
    pub ty: StatementType,
}

/// The text of an optional string.
pub open spec fn opt_text(s: Option<String>) -> Option<Seq<char>> {
    match s {
        Some(t) => Some(t@),
        None => None,
    }
}

impl View for Statement {
    type V = StatementView;

    open spec fn view(&self) -> StatementView {
        StatementView {
            pos: self.pos,
            line: self.line,
            sql: self.sql@,
            entry_id: self.entry_id,
            name: opt_text(self.name),
            ty: self.ty,
        }
    }
}

/// A statement that was read from a dump.
pub open spec fn read_statement_view(
    sql: Seq<char>,
    line: usize,
    pos_start: usize,
    pos_end: usize,
) -> StatementView {
    StatementView {
        pos: Some((pos_start, pos_end)),
        line: Some(line),
        sql: sql,
        entry_id: None,
        name: None,
        ty: StatementType::Unknown,
    }
}

/// A psql command (a line that starts with a backslash).
pub open spec fn command_view(sql: Seq<char>) -> StatementView {
    StatementView {
        pos: None,
        line: None,
        sql: sql,
        entry_id: None,
        name: None,
        ty: StatementType::Command,
    }
}

/// A statement made from SQL text alone.
pub open spec fn sql_view(sql: Seq<char>) -> StatementView {
    StatementView {
        pos: None,
        line: None,
        sql: sql,
        entry_id: None,
        name: None,
        ty: StatementType::Unknown,
    }
}

/// How a statement is shown: its entry, name and kind when it has an
/// entry, else its kind alone.
pub open spec fn statement_display(s: StatementView) -> Seq<char> {
    match s.entry_id {
        Some(id) => "Entry: "@ + decimal(id as nat) + ", Name: "@ + (match s.name {
            Some(n) => n,
            None => "--"@,
        }) + ", Type: "@ + type_display(s.ty),
        None => "Type: "@ + type_display(s.ty),
    }
}

impl Statement {
    /// A statement read from a dump: `sql` began after `line` lines, at byte
    /// `pos_start`, and ended at byte `pos_end`.
    pub fn new(sql: String, line: usize, pos_start: usize, pos_end: usize) -> (res: Self)
        ensures
            res@ == read_statement_view(sql@, line, pos_start, pos_end),
    {
        Statement {
            sql,
            line: Some(line),
            pos: Some((pos_start, pos_end)),
            entry_id: None,
            name: None,
            ty: StatementType::Unknown,
        }
    }

    /// A psql command.
    pub fn from_command(s: String) -> (res: Self)
        ensures
            res@ == command_view(s@),
    {
        Statement {
            sql: s,
            line: None,
            pos: None,
            entry_id: None,
            name: None,
            ty: StatementType::Command,
        }
    }

    /// A statement made from SQL text alone.
    pub fn from_sql(sql: String) -> (res: Self)
        ensures
            res@ == sql_view(sql@),
    {
        Statement { sql, line: None, pos: None, entry_id: None, name: None, ty: StatementType::Unknown }
    }

    /// Takes the entry, name and kind of a table-of-contents comment.  The
    /// comment must name an entry.
    pub fn set_from_comment_block(&mut self, comment: CommentBlock)
        requires
            comment@.entry_id is Some,
        ensures
            final(self)@ == (StatementView {
                entry_id: comment@.entry_id,
                name: Some(comment@.meta.name),
                ty: comment@.meta.ty,
                ..old(self)@
            }),
    {
        let entry_id = comment.entry_id;
        self.entry_id = entry_id;
        self.name = Some(comment.meta.name);
        self.ty = comment.meta.ty;
    }

    /// Replaces the SQL text.
    pub fn set_sql(&mut self, sql: String)
        ensures
            final(self)@ == (StatementView { sql: sql@, ..old(self)@ }),
    {
        self.sql = sql;
    }

    /// How this statement is shown.
    pub fn to_string(&self) -> (res: String)
        ensures
            res@ == statement_display(self@),
    {
        let mut v: Vec<char> = Vec::new();
        match self.entry_id {
            Some(id) => {
                extend_str(&mut v, "Entry: ");
                let d = decimal_chars(id as u64);
                extend_chars(&mut v, &d);
                extend_str(&mut v, ", Name: ");
                match &self.name {
                    Some(n) => {
                        let nc = chars_of(n.as_str());
                        extend_chars(&mut v, &nc);
                    },
                    None => {
                        extend_str(&mut v, "--");
                    },
                }
                extend_str(&mut v, ", Type: ");
                let t = self.ty.name_chars();
                extend_chars(&mut v, &t);
            },
            None => {
                extend_str(&mut v, "Type: ");
                let t = self.ty.name_chars();
                extend_chars(&mut v, &t);
            },
        }
        string_of(&v)
    }
}

} // verus!
