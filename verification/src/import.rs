//! Preparing a dump for import: the rewriting of its statements, the text
//! of the output dump, and what to do with each statement on a database.

use vstd::prelude::*;

use crate::dump_reader::reader::statement_views;
use crate::dump_reader::statement::{statement_display, Statement, StatementType, StatementView};
use crate::dump_reader::statements::{
    constraint_statements, replaced, splittable, without_constraints, Statements,
};
use crate::text::{
    char_width, chars_of, extend_str, has_prefix, lemma_split_on_nonempty, slice_chars, split_chars,
    split_on, starts_with, string_of, utf8_len, utf8_len_of, utf8_width,
};

verus! {

/// A dump split into groups of statements.
pub struct Dump {
    statements: Vec<Statements>,
}

/// The `search_path` setting that pg_dump writes.
pub open spec fn empty_search_path() -> Seq<char> {
    "SELECT pg_catalog.set_config('search_path', '', false);"@
}

/// The `search_path` setting that an import uses instead.
pub open spec fn public_search_path() -> Seq<char> {
    "SELECT pg_catalog.set_config('search_path', 'public', false);"@
}

/// The statements of a dump once prepared for import: the constraints of
/// the `TABLE` statements moved into `ALTER TABLE` statements at the end,
/// and the empty `search_path` made `public`.
pub open spec fn fixed_statements(s: Seq<StatementView>) -> Seq<StatementView> {
    (s.map_values(|x: StatementView| without_constraints(x)) + constraint_statements(s)).map_values(
        |x: StatementView| replaced(x, empty_search_path(), public_search_path()),
    )
}

/// Whether the constraints of every `TABLE` statement can be split off.
pub fn constraints_splittable(statements: &Vec<Statement>) -> (res: bool)
    ensures
        res == forall|i: int|
            0 <= i < statements@.len() && #[trigger] statements@[i]@.ty == StatementType::Table
                ==> splittable(statements@[i]@.sql),
{
    let mut i: usize = 0;
    while i < statements.len()
        invariant
            i <= statements@.len(),
            forall|k: int|
                0 <= k < i && #[trigger] statements@[k]@.ty == StatementType::Table ==> splittable(
                    statements@[k]@.sql,
                ),
        decreases statements.len() - i,
    {
        if statements[i].ty == StatementType::Table {
            let sql = chars_of(statements[i].sql.as_str());
            if !splittable_chars(&sql) {
                assert(statements@[i as int]@.ty == StatementType::Table);
                return false;
            }
        }
        i = i + 1;
    }
    true
}

/// Whether the constraints of one `TABLE` statement can be split off.
fn splittable_chars(sql: &[char]) -> (res: bool)
    ensures
        res == splittable(sql@),
{
    match crate::text::find_chars(sql, &chars_of("CONSTRAINT")) {
        None => true,
        Some(start) => match crate::text::rfind_chars(sql, &chars_of(");")) {
            None => false,
            Some(end) => start <= end,
        },
    }
}

/// Prepares the statements of a dump for import.  The constraints of every
/// `TABLE` statement must be splittable.
pub fn fix_statements(statements: Vec<Statement>) -> (res: Statements)
    requires
        forall|i: int|
            0 <= i < statements@.len() && #[trigger] statements@[i]@.ty == StatementType::Table
                ==> splittable(statements@[i]@.sql),
    ensures
        res@ == fixed_statements(statement_views(statements@)),
{
    let ghost s0 = statement_views(statements@);
    let mut statements = Statements::wrap(statements);
    assert forall|i: int|
        0 <= i < statements@.len() && #[trigger] statements@[i].ty == StatementType::Table implies splittable(
        statements@[i].sql) by {
        assert(statements@[i] == s0[i]);
    }
    let mut alter_statements = statements.extract_and_convert_constraints();
    statements.append(&mut alter_statements);
    statements.replace_all(
        "SELECT pg_catalog.set_config('search_path', '', false);",
        "SELECT pg_catalog.set_config('search_path', 'public', false);",
    );
    statements
}

/// The text of a statement in the output dump: a comment that shows it, a
/// blank line, its SQL, and two blank lines.
pub open spec fn rendered(s: StatementView) -> Seq<char> {
    "-- "@ + statement_display(s) + "\n\n"@ + s.sql + "\n\n\n"@
}

/// The text of a statement in the output dump.
pub fn render_statement(s: &Statement) -> (res: String)
    ensures
        res@ == rendered(s@),
{
    let mut v: Vec<char> = Vec::new();
    extend_str(&mut v, "-- ");
    let shown = s.to_string();
    extend_str(&mut v, shown.as_str());
    extend_str(&mut v, "\n\n");
    extend_str(&mut v, s.sql.as_str());
    extend_str(&mut v, "\n\n\n");
    string_of(&v)
}

/// What an import does with a statement on the database.
#[derive(Debug, Clone, PartialEq, Eq)]
pub enum ImportAction {
    /// Runs the statement's SQL.
    Execute,
    /// Connects to the named database (a `\connect` command).
    Connect(String),
    /// A `\connect` command whose last word, less its first byte and its
    /// last two bytes, is no text.
    MalformedConnect,
    /// Skips a psql command other than `\connect`.
    SkipCommand,
}

/// The last space-separated word of a command.
pub open spec fn last_word(sql: Seq<char>) -> Seq<char> {
    split_on(sql, ' ').last()
}

/// The database that the last word of a `\connect` command names: the
/// word less its first byte and its last two bytes (of its UTF-8 encoding).
/// `None` where the word has fewer than three bytes, or where byte 1 or
/// byte `len - 2` falls inside a character.
pub open spec fn connect_name(word: Seq<char>) -> Option<Seq<char>> {
    let n = word.len();
    if n >= 1 && utf8_width(word[0]) == 1 && utf8_len(word) >= 3 {
        if utf8_width(word.last()) == 2 {
            Some(word.subrange(1, n - 1))
        } else if utf8_width(word.last()) == 1 && n >= 2 && utf8_width(word[n - 2]) == 1 {
            Some(word.subrange(1, n - 2))
        } else {
            None
        }
    } else {
        None
    }
}

/// What an import does with `s`: a command that starts with `\connect`
/// connects to the database its last word names; other commands are
/// skipped; other statements are run.
pub open spec fn import_action_of(s: StatementView, res: ImportAction) -> bool {
    if s.ty == StatementType::Command {
        if starts_with(s.sql, "\\connect"@) {
            match connect_name(last_word(s.sql)) {
                Some(db) => res matches ImportAction::Connect(d) && d@ == db,
                None => res == ImportAction::MalformedConnect,
            }
        } else {
            res == ImportAction::SkipCommand
        }
    } else {
        res == ImportAction::Execute
    }
}

/// What an import does with `s`.
pub fn import_action(s: &Statement) -> (res: ImportAction)
    ensures
        import_action_of(s@, res),
{
    if s.ty != StatementType::Command {
        return ImportAction::Execute;
    }
    let sql = chars_of(s.sql.as_str());
    if !has_prefix(&sql, &chars_of("\\connect")) {
        return ImportAction::SkipCommand;
    }
    let words = split_chars(&sql, ' ');
    proof {
        lemma_split_on_nonempty(sql@, ' ');
    }
    let word = &words[words.len() - 1];
    assert(word@ =~= last_word(sql@));
    let n = word.len();
    if n == 0 || char_width(word[0]) != 1 {
        return ImportAction::MalformedConnect;
    }
    match utf8_len_of(word) {
        Some(b) => {
            if b < 3 {
                return ImportAction::MalformedConnect;
            }
        },
        None => {},
    }
    let last = char_width(word[n - 1]);
    if last == 2 {
        proof {
            lemma_utf8_len_two(word@);
        }
        let db = slice_chars(word, 1, n - 1);
        ImportAction::Connect(string_of(&db))
    } else if last == 1 && n >= 2 && char_width(word[n - 2]) == 1 {
        proof {
            lemma_utf8_len_two(word@);
        }
        let db = slice_chars(word, 1, n - 2);
        ImportAction::Connect(string_of(&db))
    } else {
        ImportAction::MalformedConnect
    }
}

/// A text whose first and last two characters have one byte each, and which
/// has at least three bytes, has at least three characters; one that has
/// two characters has as many bytes as their widths.
proof fn lemma_utf8_len_two(w: Seq<char>)
    requires
        w.len() >= 1,
    ensures
        w.len() == 1 ==> utf8_len(w) == utf8_width(w[0]),
        w.len() == 2 ==> utf8_len(w) == utf8_width(w[0]) + utf8_width(w[1]),
{
    let e = Seq::<char>::empty();
    assert(utf8_len(e) == 0);
    if w.len() == 1 {
        assert(w.drop_last() =~= e);
        assert(utf8_len(w) == utf8_len(w.drop_last()) + utf8_width(w.last()));
    }
    if w.len() == 2 {
        let u = w.drop_last();
        assert(u.drop_last() =~= e);
        assert(u.last() == w[0]);
        assert(utf8_len(u) == utf8_len(u.drop_last()) + utf8_width(u.last()));
        assert(utf8_len(w) == utf8_len(u) + utf8_width(w.last()));
    }
}

} // verus!
