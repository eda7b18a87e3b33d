//! The reader of a plain-text dump.
//!
//! The dump is read line by line, as `BufRead::read_line` gives its lines.
//! Each step looks at the next line without reading it and, by what the
//! line holds once trimmed, reads
//! - a blank line: skips it; more than ten blank lines in a row end the
//!   reading;
//! - a `--` line: the whole block of `--` lines, and the line after it; the
//!   block names the entry of the statement that follows;
//! - a `\` line: that line, as a psql command;
//! - any other line: a statement, up to the line that ends it.  What ends it
//!   depends on the kind that the preceding comment block names: a line that
//!   starts with `\.` for table data, a line that closes a function body for
//!   a function, a blank line for the other kinds, and a line that ends with
//!   `;` where no comment block preceded.
//!
//! A statement whose comment block names an excluded schema, or an excluded
//! extension or table, is read and dropped.  A statement that is kept after
//! a comment block that names no entry number stops the reading with an
//! error.
//!
//! The line count wraps around at the end of the `usize` range.  An entry
//! number that does not fit in a `u64` stops the reading with an error (see
//! `comment`).

use vstd::prelude::*;

use crate::dump_reader::comment::{
    lemma_toc_scan_kind, toc_scan, CommentBlock, CommentBlockView, CommentError, MetaView, TocScan,
};
use crate::dump_reader::statement::{
    command_view, read_statement_view, Statement, StatementType, StatementView,
};
use crate::text::{
    chars_of, concat, ends_with, extend_chars, has_prefix, has_suffix, lemma_concat_split_lines,
    lemma_utf8_len_append, lemma_utf8_len_concat_push, lemma_utf8_len_is_encoding_len, same_chars, slice_chars,
    split_lines, split_text_lines, starts_with, string_of, trim, trim_chars, trim_end, trim_start, utf8_len, utf8_len_bounded,
    has_string,
};
use vstd::utf8::encode_utf8;

verus! {

// ---------------------------------------------------------------------------
// Configuration and errors
// ---------------------------------------------------------------------------

/// What the reader leaves out.
#[derive(Debug, Clone)]
pub struct Config {
    /// Statements of these schemas are dropped.
    pub exclude_schema: Vec<String>,
    /// These extensions are dropped.
    pub exclude_extension: Vec<String>,
    /// The data of these tables is dropped.
    pub exclude_table_data: Vec<String>,
}

/// A `Config` as a value.
pub struct ConfigView {
    pub exclude_schema: Seq<Seq<char>>,
    pub exclude_extension: Seq<Seq<char>>,
    pub exclude_table_data: Seq<Seq<char>>,
}

impl View for Config {
    type V = ConfigView;

    open spec fn view(&self) -> ConfigView {
        ConfigView {
            exclude_schema: self.exclude_schema.deep_view(),
            exclude_extension: self.exclude_extension.deep_view(),
            exclude_table_data: self.exclude_table_data.deep_view(),
        }
    }
}

impl Default for Config {
    fn default() -> (res: Self)
        ensures
            res@.exclude_schema.len() == 0,
            res@.exclude_extension.len() == 0,
            res@.exclude_table_data.len() == 0,
    {
        Config {
            exclude_schema: Vec::new(),
            exclude_extension: Vec::new(),
            exclude_table_data: Vec::new(),
        }
    }
}

/// Why reading a dump stopped.
#[derive(Debug, Clone, Copy, PartialEq, Eq, Structural)]
pub enum ReadError {
    /// The dump ended inside a statement, before the line that ends it.
    /// Past its end a dump reads only as empty lines, which never end such
    /// a statement, so the reader stops here rather than read on for ever.
    UnexpectedEof,
    /// A comment block cannot be read (`CommentError::Unparsable`).
    InvalidData,
    /// A `-- TOC` line of a comment block stops its scanner
    /// (`CommentError::MalformedToc`).
    MalformedTocLine,
    /// A statement that is kept follows a comment block that names no entry
    /// number.
    UntaggedComment,
}

// ---------------------------------------------------------------------------
// The specification of reading
// ---------------------------------------------------------------------------

/// What a line holds, once trimmed.
#[derive(Debug, Clone, Copy, PartialEq, Eq, Structural)]
pub enum LineType {
    Blank,
    Comment,
    Statement,
    Command,
}

/// The kind of a line.
pub open spec fn line_type(line: Seq<char>) -> LineType {
    let t = trim(line);
    if t.len() == 0 {
        LineType::Blank
    } else if starts_with(t, "--"@) {
        LineType::Comment
    } else if starts_with(t, "\\"@) {
        LineType::Command
    } else {
        LineType::Statement
    }
}

/// The lines that end what is being read.
pub enum EndKind {
    /// A line that starts with the given text (`\.` ends table data).
    StartsWith(Seq<char>),
    /// A line that is `END $_$;`, `$_$;` or `$$;` once trimmed (the end of a
    /// function body).
    FunctionEnd,
    /// A line that is blank once trimmed.
    BlankLine,
    /// A line that ends with `;` once trimmed.
    Semicolon,
    /// A line that does not start with `--` (the end of a comment block).
    NonComment,
}

/// Whether `line` ends what `kind` reads.
pub open spec fn ends_at(kind: EndKind, line: Seq<char>) -> bool {
    match kind {
        EndKind::StartsWith(p) => starts_with(line, p),
        EndKind::FunctionEnd => trim(line) == "END $_$;"@ || trim(line) == "$_$;"@ || trim(line)
            == "$$;"@,
        EndKind::BlankLine => trim(line).len() == 0,
        EndKind::Semicolon => ends_with(trim(line), ";"@),
        EndKind::NonComment => !starts_with(line, "--"@),
    }
}

/// What ends a statement of the kind that a comment block names, or one
/// without a comment block.
pub open spec fn statement_end(ty: Option<StatementType>) -> EndKind {
    match ty {
        Some(StatementType::TableData) => EndKind::StartsWith("\\."@),
        Some(StatementType::Function) => EndKind::FunctionEnd,
        Some(_) => EndKind::BlankLine,
        None => EndKind::Semicolon,
    }
}

/// Where reading up to the `n`-th blank line from line `i` stops (the index
/// of the last line read), and how many reads it makes.  The end of the dump
/// reads as a blank line each time it is read.
pub open spec fn blank_end(lines: Seq<Seq<char>>, i: int, n: nat) -> (int, nat)
    decreases lines.len() - i,
{
    if i >= lines.len() {
        (i, n)
    } else if trim(lines[i]).len() == 0 {
        if n <= 1 {
            (i, 1)
        } else {
            let r = blank_end(lines, i + 1, (n - 1) as nat);
            (r.0, r.1 + 1)
        }
    } else {
        let r = blank_end(lines, i + 1, n);
        (r.0, r.1 + 1)
    }
}

/// What ends a statement, by the kind its comment block names: a line that
/// starts with `\\.` ends table data; a line that is `END $_$;`, `$_$;` or
/// `$$;` once trimmed ends a function; a line that is blank once trimmed
/// ends a statement of any other kind; and a line that ends with `;` once
/// trimmed ends a statement with no comment block before it.
pub proof fn lemma_statement_ends(ty: Option<StatementType>, l: Seq<char>)
    ensures
        ty == Some(StatementType::TableData) ==> (ends_at(statement_end(ty), l) <==> starts_with(
            l,
            "\\."@,
        )),
        ty == Some(StatementType::Function) ==> (ends_at(statement_end(ty), l) <==> (trim(l)
            == "END $_$;"@ || trim(l) == "$_$;"@ || trim(l) == "$$;"@)),
        (ty matches Some(t) && t != StatementType::TableData && t != StatementType::Function)
            ==> (ends_at(statement_end(ty), l) <==> trim(l).len() == 0),
        ty is None ==> (ends_at(statement_end(ty), l) <==> ends_with(trim(l), ";"@)),
{
}

/// What a configuration leaves out: a statement whose comment block names
/// an excluded schema, whatever its kind; an extension whose name is
/// excluded; the data of a table whose name is excluded; and nothing else.
pub proof fn lemma_excluded_rules(cfg: ConfigView, m: MetaView)
    ensures
        cfg.exclude_schema.contains(m.schema) ==> excluded(cfg, m),
        m.ty == StatementType::Extension && cfg.exclude_extension.contains(m.name) ==> excluded(
            cfg,
            m,
        ),
        m.ty == StatementType::TableData && cfg.exclude_table_data.contains(m.name) ==> excluded(
            cfg,
            m,
        ),
        excluded(cfg, m) ==> cfg.exclude_schema.contains(m.schema) || cfg.exclude_extension.contains(
            m.name,
        ) || cfg.exclude_table_data.contains(m.name),
        m.ty != StatementType::Extension && m.ty != StatementType::TableData ==> (excluded(cfg, m)
            <==> cfg.exclude_schema.contains(m.schema)),
        no_exclusion() == cfg ==> !excluded(cfg, m),
{
}

/// The `i`-th line, and the empty text that a read at the end of the dump
/// gives.
pub open spec fn line_at(lines: Seq<Seq<char>>, i: int) -> Seq<char> {
    if 0 <= i < lines.len() {
        lines[i]
    } else {
        Seq::<char>::empty()
    }
}

/// The index of the next line once line `i` has been read: reading at the
/// end of the dump does not move.
pub open spec fn advance(lines: Seq<Seq<char>>, i: int) -> int {
    if i < lines.len() {
        i + 1
    } else {
        i
    }
}

/// The first line at or after `i` (the empty read at the end of the dump
/// included) that ends what `kind` reads.
pub open spec fn first_end(lines: Seq<Seq<char>>, i: int, kind: EndKind) -> Option<int>
    decreases lines.len() + 1 - i,
{
    if i < 0 || i > lines.len() {
        None
    } else if ends_at(kind, line_at(lines, i)) {
        Some(i)
    } else {
        first_end(lines, i + 1, kind)
    }
}

/// The number of bytes of the lines before line `i`.
pub open spec fn bytes_before(lines: Seq<Seq<char>>, i: int) -> nat {
    utf8_len(concat(lines.take(i)))
}

/// The text of lines `a` to `b` (excluded).
pub open spec fn text_between(lines: Seq<Seq<char>>, a: int, b: int) -> Seq<char> {
    concat(lines.subrange(a, b))
}

/// The line count after `k` more lines were read (it wraps around, as a
/// release build of the reader does).
pub open spec fn add_lines(lc: usize, k: nat) -> usize
    decreases k,
{
    if k == 0 {
        lc
    } else {
        add_lines(lc, (k - 1) as nat).wrapping_add(1)
    }
}

/// Whether a comment block's `Meta` excludes the statement after it.
pub open spec fn excluded(cfg: ConfigView, m: MetaView) -> bool {
    ||| cfg.exclude_schema.contains(m.schema)
    ||| (m.ty == StatementType::Extension && cfg.exclude_extension.contains(m.name))
    ||| (m.ty == StatementType::TableData && cfg.exclude_table_data.contains(m.name))
}

/// A statement with the entry, name and kind of its comment block.
pub open spec fn with_comment(s: StatementView, c: CommentBlockView) -> StatementView {
    StatementView { entry_id: c.entry_id, name: Some(c.meta.name), ty: c.meta.ty, ..s }
}

/// Where the reading stands: the next line, the line count, the blank
/// lines just read, the comment block just read, and the statements kept.
pub struct ScanState {
    pub next: int,
    pub line_count: usize,
    pub blank: nat,
    pub last: Option<CommentBlockView>,
    pub acc: Seq<StatementView>,
}

/// What reading gives, and where the reader stands afterwards.
pub struct ReadOutcome {
    pub result: Result<Seq<StatementView>, ReadError>,
    pub next: int,
    pub line_count: usize,
}

/// The reading of `lines` from state `st` to its end.
pub open spec fn read_from(lines: Seq<Seq<char>>, cfg: ConfigView, st: ScanState) -> ReadOutcome
    decreases lines.len() - st.next, 11 - st.blank,
    when 0 <= st.next <= lines.len() && st.blank <= 10
{
    let n = lines.len() as int;
    let next = st.next;
    let lc = st.line_count;
    match line_type(line_at(lines, next)) {
        LineType::Blank => {
            let b = st.blank + 1;
            if b > 10 {
                ReadOutcome {
                    result: Ok(st.acc),
                    next: next,
                    line_count: lc.wrapping_sub(b as usize),
                }
            } else {
                read_from(
                    lines,
                    cfg,
                    ScanState {
                        next: advance(lines, next),
                        line_count: lc.wrapping_add(1),
                        blank: b,
                        ..st
                    },
                )
            }
        },
        LineType::Comment => {
            let j = match first_end(lines, next, EndKind::NonComment) {
                Some(j) => j,
                None => n,
            };
            proof {
                lemma_first_end_bounds(lines, next, EndKind::NonComment);
                lemma_empty_line_type();
            }
            let nx = advance(lines, j);
            let lc2 = add_lines(lc, (j - next + 1) as nat);
            match toc_scan(text_between(lines, next, j)) {
                TocScan::Aborted => ReadOutcome {
                    result: Err(ReadError::MalformedTocLine),
                    next: nx,
                    line_count: lc2,
                },
                TocScan::Rejected => ReadOutcome {
                    result: Err(ReadError::InvalidData),
                    next: nx,
                    line_count: lc2,
                },
                TocScan::Scanned(e, m) => read_from(
                    lines,
                    cfg,
                    ScanState {
                        next: nx,
                        line_count: lc2,
                        blank: 0,
                        last: Some(CommentBlockView { entry_id: e, meta: m, lineno: lc2 }),
                        acc: st.acc,
                    },
                ),
            }
        },
        LineType::Command => {
            proof {
                lemma_empty_line_type();
            }
            read_from(
                lines,
                cfg,
                ScanState {
                    next: next + 1,
                    line_count: lc.wrapping_add(1),
                    blank: 0,
                    last: None,
                    acc: st.acc.push(command_view(lines[next])),
                },
            )
        },
        LineType::Statement => {
            let ty = match st.last {
                Some(c) => Some(c.meta.ty),
                None => None,
            };
            proof {
                lemma_first_end_bounds(lines, next, statement_end(ty));
                lemma_empty_line_type();
            }
            match first_end(lines, next, statement_end(ty)) {
                None => ReadOutcome {
                    result: Err(ReadError::UnexpectedEof),
                    next: n,
                    line_count: add_lines(lc, (n - next + 1) as nat),
                },
                Some(j) => {
                    let nx = advance(lines, j);
                    let lc2 = add_lines(lc, (j - next + 1) as nat);
                    let s = read_statement_view(
                        text_between(lines, next, nx),
                        lc,
                        bytes_before(lines, next) as usize,
                        bytes_before(lines, nx) as usize,
                    );
                    let after = ScanState {
                        next: nx,
                        line_count: lc2,
                        blank: 0,
                        last: None,
                        acc: st.acc,
                    };
                    match st.last {
                        None => read_from(lines, cfg, ScanState { acc: st.acc.push(s), ..after }),
                        Some(c) => if excluded(cfg, c.meta) {
                            read_from(lines, cfg, after)
                        } else if c.entry_id is None {
                            ReadOutcome {
                                result: Err(ReadError::UntaggedComment),
                                next: nx,
                                line_count: lc2,
                            }
                        } else {
                            read_from(
                                lines,
                                cfg,
                                ScanState { acc: st.acc.push(with_comment(s, c)), ..after },
                            )
                        },
                    }
                },
            }
        },
    }
}

/// The views of a sequence of statements.
pub open spec fn statement_views(v: Seq<Statement>) -> Seq<StatementView> {
    v.map_values(|s: Statement| s@)
}

// ---------------------------------------------------------------------------
// Lemmas
// ---------------------------------------------------------------------------

/// The end of the dump reads as a blank line.
pub proof fn lemma_empty_line_type()
    ensures
        line_type(Seq::<char>::empty()) == LineType::Blank,
{
    let e = Seq::<char>::empty();
    assert(trim_start(e) == e);
    assert(trim_end(e) == e);
}

/// Where `first_end` stops.
pub proof fn lemma_first_end_bounds(lines: Seq<Seq<char>>, i: int, kind: EndKind)
    requires
        0 <= i <= lines.len(),
    ensures
        first_end(lines, i, kind) matches Some(j) ==> i <= j <= lines.len() && ends_at(
            kind,
            line_at(lines, j),
        ),
        first_end(lines, i, kind) is None ==> !ends_at(kind, line_at(lines, lines.len() as int)),
        forall|k: int|
            #![trigger line_at(lines, k)]
            i <= k <= lines.len() && (first_end(lines, i, kind) matches Some(j) ==> k < j)
                ==> !ends_at(kind, line_at(lines, k)),
    decreases lines.len() + 1 - i,
{
    if ends_at(kind, line_at(lines, i)) {
    } else if i < lines.len() {
        lemma_first_end_bounds(lines, i + 1, kind);
    } else {
        assert(first_end(lines, i + 1, kind) is None);
    }
}

/// The bytes before line `i + 1`.
pub proof fn lemma_bytes_before_step(lines: Seq<Seq<char>>, i: int)
    requires
        0 <= i < lines.len(),
    ensures
        bytes_before(lines, i + 1) == bytes_before(lines, i) + utf8_len(lines[i]),
{
    assert(lines.take(i + 1) == lines.take(i).push(lines[i]));
    lemma_utf8_len_concat_push(lines.take(i), lines[i]);
}

/// More lines hold at least as many bytes.
pub proof fn lemma_bytes_before_mono(lines: Seq<Seq<char>>, i: int, j: int)
    requires
        0 <= i <= j <= lines.len(),
    ensures
        bytes_before(lines, i) <= bytes_before(lines, j),
    decreases j - i,
{
    if i < j {
        lemma_bytes_before_mono(lines, i, j - 1);
        lemma_bytes_before_step(lines, j - 1);
    }
}

/// The text of lines `a` to `b + 1`.
pub proof fn lemma_text_between_step(lines: Seq<Seq<char>>, a: int, b: int)
    requires
        0 <= a <= b < lines.len(),
    ensures
        text_between(lines, a, b + 1) == text_between(lines, a, b) + lines[b],
{
    assert(lines.subrange(a, b + 1) == lines.subrange(a, b).push(lines[b]));
    lemma_utf8_len_concat_push(lines.subrange(a, b), lines[b]);
}


/// The bytes of lines `i` to `j` (excluded) are those of their text.
pub proof fn lemma_bytes_between(lines: Seq<Seq<char>>, i: int, j: int)
    requires
        0 <= i <= j <= lines.len(),
    ensures
        bytes_before(lines, j) == bytes_before(lines, i) + utf8_len(text_between(lines, i, j)),
    decreases j - i,
{
    if i == j {
        assert(lines.subrange(i, j) =~= Seq::<Seq<char>>::empty());
        assert(utf8_len(Seq::<char>::empty()) == 0);
    } else {
        lemma_bytes_between(lines, i, j - 1);
        lemma_bytes_before_step(lines, j - 1);
        lemma_text_between_step(lines, i, j - 1);
        lemma_utf8_len_append(text_between(lines, i, j - 1), lines[j - 1]);
    }
}

/// A statement with byte offsets `(a, b)` holds the text of the dump from
/// the start of one line to the start of another, at bytes `a` and `b`;
/// `b - a` is the number of bytes of its text.
pub open spec fn spans_dump(lines: Seq<Seq<char>>, s: StatementView) -> bool {
    s.pos matches Some((a, b)) ==> {
        &&& b - a == utf8_len(s.sql)
        &&& exists|i: int, j: int|
            0 <= i <= j <= lines.len() && a == bytes_before(lines, i) && b == bytes_before(lines, j)
                && s.sql == text_between(lines, i, j)
    }
}

/// The statements with byte offsets hold the dump's text at those offsets,
/// come in the order of the dump without overlapping, and end by byte
/// `limit`.
pub open spec fn spans_in_order(
    lines: Seq<Seq<char>>,
    acc: Seq<StatementView>,
    limit: int,
) -> bool {
    &&& forall|k: int| 0 <= k < acc.len() ==> spans_dump(lines, #[trigger] acc[k])
    &&& forall|k: int|
        0 <= k < acc.len() ==> (#[trigger] acc[k].pos matches Some((a, b)) ==> a <= b <= limit)
    &&& forall|k: int, l: int|
        0 <= k < l < acc.len() ==> (#[trigger] acc[k].pos matches Some((a1, b1)) ==> (
        #[trigger] acc[l].pos matches Some((a2, b2)) ==> b1 <= a2))
}

proof fn lemma_in_order_mono(lines: Seq<Seq<char>>, acc: Seq<StatementView>, l1: int, l2: int)
    requires
        spans_in_order(lines, acc, l1),
        l1 <= l2,
    ensures
        spans_in_order(lines, acc, l2),
{
    assert forall|k: int| 0 <= k < acc.len() implies (#[trigger] acc[k].pos matches Some((a, b))
        ==> a <= b <= l2) by {
        if acc[k].pos is Some {
        }
    }
}

proof fn lemma_in_order_push(
    lines: Seq<Seq<char>>,
    acc: Seq<StatementView>,
    s: StatementView,
    limit: int,
    new_limit: int,
)
    requires
        spans_in_order(lines, acc, limit),
        spans_dump(lines, s),
        limit <= new_limit,
        s.pos matches Some((a, b)) ==> limit <= a <= b <= new_limit,
    ensures
        spans_in_order(lines, acc.push(s), new_limit),
{
    let acc2 = acc.push(s);
    lemma_in_order_mono(lines, acc, limit, new_limit);
    assert forall|k: int| 0 <= k < acc2.len() implies spans_dump(lines, #[trigger] acc2[k]) by {
        if k < acc.len() {
            assert(acc2[k] == acc[k]);
        }
    }
    assert forall|k: int| 0 <= k < acc2.len() implies (#[trigger] acc2[k].pos matches Some((a, b))
        ==> a <= b <= new_limit) by {
        if k < acc.len() {
            assert(acc2[k] == acc[k]);
        }
    }
    assert forall|k: int, l: int| 0 <= k < l < acc2.len() implies (
    #[trigger] acc2[k].pos matches Some((a1, b1)) ==> (#[trigger] acc2[l].pos matches Some((a2, b2))
        ==> b1 <= a2)) by {
        assert(acc2[k] == acc[k]);
        if l < acc.len() {
            assert(acc2[l] == acc[l]);
        } else {
            assert(acc2[l] == s);
        }
    }
}

/// A statement read from lines `i` to `j` holds the dump's text there.
proof fn lemma_read_statement_spans(
    lines: Seq<Seq<char>>,
    i: int,
    j: int,
    lc: usize,
)
    requires
        0 <= i <= j <= lines.len(),
        bytes_before(lines, lines.len() as int) <= usize::MAX,
    ensures
        spans_dump(
            lines,
            read_statement_view(
                text_between(lines, i, j),
                lc,
                bytes_before(lines, i) as usize,
                bytes_before(lines, j) as usize,
            ),
        ),
        bytes_before(lines, i) as usize == bytes_before(lines, i),
        bytes_before(lines, j) as usize == bytes_before(lines, j),
{
    lemma_bytes_before_mono(lines, i, j);
    lemma_bytes_before_mono(lines, j, lines.len() as int);
    lemma_bytes_between(lines, i, j);
}

proof fn lemma_read_from_in_order(lines: Seq<Seq<char>>, cfg: ConfigView, st: ScanState)
    requires
        0 <= st.next <= lines.len(),
        st.blank <= 10,
        bytes_before(lines, lines.len() as int) <= usize::MAX,
        spans_in_order(lines, st.acc, bytes_before(lines, st.next) as int),
    ensures
        read_from(lines, cfg, st).result matches Ok(v) ==> spans_in_order(
            lines,
            v,
            bytes_before(lines, lines.len() as int) as int,
        ),
    decreases lines.len() - st.next, 11 - st.blank,
{
    let n = lines.len() as int;
    let next = st.next;
    let lc = st.line_count;
    lemma_bytes_before_mono(lines, next, n);
    lemma_empty_line_type();
    match line_type(line_at(lines, next)) {
        LineType::Blank => {
            let b = st.blank + 1;
            if b > 10 {
                lemma_in_order_mono(lines, st.acc, bytes_before(lines, next) as int, bytes_before(lines, n) as int);
            } else {
                let st2 = ScanState {
                    next: advance(lines, next),
                    line_count: lc.wrapping_add(1),
                    blank: b,
                    ..st
                };
                lemma_bytes_before_mono(lines, next, advance(lines, next));
                lemma_in_order_mono(lines, st.acc, bytes_before(lines, next) as int, bytes_before(lines, st2.next) as int);
                lemma_read_from_in_order(lines, cfg, st2);
            }
        },
        LineType::Comment => {
            lemma_first_end_bounds(lines, next, EndKind::NonComment);
            let j = match first_end(lines, next, EndKind::NonComment) {
                Some(j) => j,
                None => n,
            };
            let nx = advance(lines, j);
            let lc2 = add_lines(lc, (j - next + 1) as nat);
            match toc_scan(text_between(lines, next, j)) {
                TocScan::Scanned(e, m) => {
                    let st2 = ScanState {
                        next: nx,
                        line_count: lc2,
                        blank: 0,
                        last: Some(CommentBlockView { entry_id: e, meta: m, lineno: lc2 }),
                        acc: st.acc,
                    };
                    lemma_bytes_before_mono(lines, next, nx);
                    lemma_in_order_mono(lines, st.acc, bytes_before(lines, next) as int, bytes_before(lines, nx) as int);
                    lemma_read_from_in_order(lines, cfg, st2);
                },
                _ => {},
            }
        },
        LineType::Command => {
            let s = command_view(lines[next]);
            let st2 = ScanState {
                next: next + 1,
                line_count: lc.wrapping_add(1),
                blank: 0,
                last: None,
                acc: st.acc.push(s),
            };
            lemma_bytes_before_mono(lines, next, next + 1);
            lemma_in_order_push(lines, st.acc, s, bytes_before(lines, next) as int, bytes_before(lines, next + 1) as int);
            lemma_read_from_in_order(lines, cfg, st2);
        },
        LineType::Statement => {
            let ty = match st.last {
                Some(c) => Some(c.meta.ty),
                None => None,
            };
            lemma_first_end_bounds(lines, next, statement_end(ty));
            match first_end(lines, next, statement_end(ty)) {
                None => {},
                Some(j) => {
                    let nx = advance(lines, j);
                    let lc2 = add_lines(lc, (j - next + 1) as nat);
                    let s = read_statement_view(
                        text_between(lines, next, nx),
                        lc,
                        bytes_before(lines, next) as usize,
                        bytes_before(lines, nx) as usize,
                    );
                    let after = ScanState {
                        next: nx,
                        line_count: lc2,
                        blank: 0,
                        last: None,
                        acc: st.acc,
                    };
                    lemma_read_statement_spans(lines, next, nx, lc);
                    lemma_bytes_before_mono(lines, next, nx);
                    lemma_in_order_mono(lines, st.acc, bytes_before(lines, next) as int, bytes_before(lines, nx) as int);
                    match st.last {
                        None => {
                            lemma_in_order_push(lines, st.acc, s, bytes_before(lines, next) as int, bytes_before(lines, nx) as int);
                            lemma_read_from_in_order(lines, cfg, ScanState { acc: st.acc.push(s), ..after });
                        },
                        Some(c) => {
                            if excluded(cfg, c.meta) {
                                lemma_read_from_in_order(lines, cfg, after);
                            } else if c.entry_id is None {
                            } else {
                                let s2 = with_comment(s, c);
                                assert(spans_dump(lines, s2));
                                lemma_in_order_push(lines, st.acc, s2, bytes_before(lines, next) as int, bytes_before(lines, nx) as int);
                                lemma_read_from_in_order(lines, cfg, ScanState { acc: st.acc.push(s2), ..after });
                            }
                        },
                    }
                },
            }
        },
    }
}

/// Every statement that reading gives with byte offsets `(a, b)` holds the
/// text of the dump from the start of a line at byte `a` to the start of a
/// line at byte `b`, and `b - a` is the number of bytes of that text; the
/// statements come in the order of the dump and do not overlap.
pub proof fn lemma_read_statements_in_place(r: DumpReaderView)
    requires
        0 <= r.next <= r.lines.len(),
        bytes_before(r.lines, r.lines.len() as int) <= usize::MAX,
    ensures
        read_outcome(r).result matches Ok(v) ==> spans_in_order(
            r.lines,
            v,
            bytes_before(r.lines, r.lines.len() as int) as int,
        ),
{
    let st = ScanState {
        next: r.next,
        line_count: r.line_count,
        blank: 0,
        last: None,
        acc: Seq::<StatementView>::empty(),
    };
    lemma_read_from_in_order(r.lines, r.config, st);
}

/// A configuration that excludes nothing.
pub open spec fn no_exclusion() -> ConfigView {
    ConfigView {
        exclude_schema: Seq::<Seq<char>>::empty(),
        exclude_extension: Seq::<Seq<char>>::empty(),
        exclude_table_data: Seq::<Seq<char>>::empty(),
    }
}

/// `ms` followed by the `Meta` of the comment block before each statement
/// that reading with nothing excluded adds from the given state on, up to
/// where that reading ends or fails: `None` for a statement with no comment
/// block before it and for a psql command.
pub open spec fn comment_metas(
    lines: Seq<Seq<char>>,
    next: int,
    lc: usize,
    blank: nat,
    last: Option<CommentBlockView>,
    ms: Seq<Option<MetaView>>,
) -> Seq<Option<MetaView>>
    decreases lines.len() - next, 11 - blank,
    when 0 <= next <= lines.len() && blank <= 10
{
    let n = lines.len() as int;
    match line_type(line_at(lines, next)) {
        LineType::Blank => {
            if blank + 1 > 10 {
                ms
            } else {
                comment_metas(
                    lines,
                    advance(lines, next),
                    lc.wrapping_add(1),
                    blank + 1,
                    last,
                    ms,
                )
            }
        },
        LineType::Comment => {
            let j = match first_end(lines, next, EndKind::NonComment) {
                Some(j) => j,
                None => n,
            };
            proof {
                lemma_first_end_bounds(lines, next, EndKind::NonComment);
                lemma_empty_line_type();
            }
            let nx = advance(lines, j);
            let lc2 = add_lines(lc, (j - next + 1) as nat);
            match toc_scan(text_between(lines, next, j)) {
                TocScan::Scanned(e, m) => comment_metas(
                    lines,
                    nx,
                    lc2,
                    0,
                    Some(CommentBlockView { entry_id: e, meta: m, lineno: lc2 }),
                    ms,
                ),
                _ => ms,
            }
        },
        LineType::Command => {
            proof {
                lemma_empty_line_type();
            }
            comment_metas(lines, next + 1, lc.wrapping_add(1), 0, None, ms.push(None))
        },
        LineType::Statement => {
            let ty = match last {
                Some(c) => Some(c.meta.ty),
                None => None,
            };
            proof {
                lemma_first_end_bounds(lines, next, statement_end(ty));
                lemma_empty_line_type();
            }
            match first_end(lines, next, statement_end(ty)) {
                None => ms,
                Some(j) => {
                    let meta = match last {
                        Some(c) => Some(c.meta),
                        None => None,
                    };
                    if last matches Some(c) && c.entry_id is None {
                        ms
                    } else {
                        comment_metas(
                            lines,
                            advance(lines, j),
                            add_lines(lc, (j - next + 1) as nat),
                            0,
                            None,
                            ms.push(meta),
                        )
                    }
                },
            }
        },
    }
}

/// The statements of `v` that `cfg` keeps, where `ms[k]` is the `Meta` of
/// the comment block before `v[k]`: those whose block's `Meta` it does not
/// exclude, in order.
pub open spec fn kept(
    cfg: ConfigView,
    v: Seq<StatementView>,
    ms: Seq<Option<MetaView>>,
) -> Seq<StatementView>
    decreases v.len(),
{
    if v.len() == 0 {
        v
    } else {
        let rest = kept(cfg, v.drop_last(), ms.drop_last());
        if ms.last() matches Some(m) && excluded(cfg, m) {
            rest
        } else {
            rest.push(v.last())
        }
    }
}

proof fn lemma_kept_push(
    cfg: ConfigView,
    v: Seq<StatementView>,
    ms: Seq<Option<MetaView>>,
    s: StatementView,
    m: Option<MetaView>,
)
    ensures
        kept(cfg, v.push(s), ms.push(m)) == if m matches Some(mm) && excluded(cfg, mm) {
            kept(cfg, v, ms)
        } else {
            kept(cfg, v, ms).push(s)
        },
{
    assert(v.push(s).drop_last() =~= v);
    assert(ms.push(m).drop_last() =~= ms);
}

proof fn lemma_read_from_excluded(
    lines: Seq<Seq<char>>,
    cfg: ConfigView,
    st0: ScanState,
    ms: Seq<Option<MetaView>>,
)
    requires
        0 <= st0.next <= lines.len(),
        st0.blank <= 10,
        ms.len() == st0.acc.len(),
    ensures
        ({
            let st1 = ScanState { acc: kept(cfg, st0.acc, ms), ..st0 };
            let o0 = read_from(lines, no_exclusion(), st0);
            let o1 = read_from(lines, cfg, st1);
            let mk = comment_metas(lines, st0.next, st0.line_count, st0.blank, st0.last, ms);
            &&& o0.result matches Ok(v0) ==> mk.len() == v0.len() && o1.result == Ok::<
                Seq<StatementView>,
                ReadError,
            >(kept(cfg, v0, mk)) && o1.next == o0.next && o1.line_count == o0.line_count
            &&& o0.result is Err && o0.result != Err::<Seq<StatementView>, ReadError>(
                ReadError::UntaggedComment,
            ) ==> o1.result == o0.result && o1.next == o0.next && o1.line_count == o0.line_count
            &&& o1.result == Err::<Seq<StatementView>, ReadError>(ReadError::UntaggedComment)
                ==> o0.result == Err::<Seq<StatementView>, ReadError>(ReadError::UntaggedComment)
        }),
    decreases lines.len() - st0.next, 11 - st0.blank,
{
    let n = lines.len() as int;
    let next = st0.next;
    let lc = st0.line_count;
    let cfg0 = no_exclusion();
    lemma_empty_line_type();
    match line_type(line_at(lines, next)) {
        LineType::Blank => {
            let b = st0.blank + 1;
            if b <= 10 {
                let st2 = ScanState {
                    next: advance(lines, next),
                    line_count: lc.wrapping_add(1),
                    blank: b,
                    ..st0
                };
                lemma_read_from_excluded(lines, cfg, st2, ms);
            }
        },
        LineType::Comment => {
            lemma_first_end_bounds(lines, next, EndKind::NonComment);
            let j = match first_end(lines, next, EndKind::NonComment) {
                Some(j) => j,
                None => n,
            };
            let nx = advance(lines, j);
            let lc2 = add_lines(lc, (j - next + 1) as nat);
            match toc_scan(text_between(lines, next, j)) {
                TocScan::Scanned(e, m) => {
                    let st2 = ScanState {
                        next: nx,
                        line_count: lc2,
                        blank: 0,
                        last: Some(CommentBlockView { entry_id: e, meta: m, lineno: lc2 }),
                        acc: st0.acc,
                    };
                    lemma_read_from_excluded(lines, cfg, st2, ms);
                },
                _ => {},
            }
        },
        LineType::Command => {
            let s = command_view(lines[next]);
            let st2 = ScanState {
                next: next + 1,
                line_count: lc.wrapping_add(1),
                blank: 0,
                last: None,
                acc: st0.acc.push(s),
            };
            lemma_kept_push(cfg, st0.acc, ms, s, None);
            lemma_read_from_excluded(lines, cfg, st2, ms.push(None));
        },
        LineType::Statement => {
            let ty = match st0.last {
                Some(c) => Some(c.meta.ty),
                None => None,
            };
            lemma_first_end_bounds(lines, next, statement_end(ty));
            match first_end(lines, next, statement_end(ty)) {
                None => {},
                Some(j) => {
                    let nx = advance(lines, j);
                    let lc2 = add_lines(lc, (j - next + 1) as nat);
                    let s = read_statement_view(
                        text_between(lines, next, nx),
                        lc,
                        bytes_before(lines, next) as usize,
                        bytes_before(lines, nx) as usize,
                    );
                    let after = ScanState {
                        next: nx,
                        line_count: lc2,
                        blank: 0,
                        last: None,
                        acc: st0.acc,
                    };
                    match st0.last {
                        None => {
                            lemma_kept_push(cfg, st0.acc, ms, s, None);
                            lemma_read_from_excluded(
                                lines,
                                cfg,
                                ScanState { acc: st0.acc.push(s), ..after },
                                ms.push(None),
                            );
                        },
                        Some(c) => {
                            assert(!excluded(cfg0, c.meta));
                            if c.entry_id is None {
                            } else {
                            let s2 = with_comment(s, c);
                            lemma_kept_push(cfg, st0.acc, ms, s2, Some(c.meta));
                            lemma_read_from_excluded(
                                lines,
                                cfg,
                                ScanState { acc: st0.acc.push(s2), ..after },
                                ms.push(Some(c.meta)),
                            );
                            }
                        },
                    }
                },
            }
        },
    }
}

/// Reading with a configuration gives what reading with nothing excluded
/// gives, less exactly the statements whose comment block's `Meta` the
/// configuration excludes: the statements kept keep their order, text, line
/// and byte offsets, and the reader ends at the same line with the same line
/// count.  Every error but `UntaggedComment` comes alike with or without the
/// configuration; `UntaggedComment` comes with it only where it comes
/// without it (an excluded statement needs no entry number).
pub proof fn lemma_exclusion(r: DumpReaderView)
    requires
        0 <= r.next <= r.lines.len(),
    ensures
        ({
            let o0 = read_outcome(DumpReaderView { config: no_exclusion(), ..r });
            let o = read_outcome(r);
            let ms = comment_metas(
                r.lines,
                r.next,
                r.line_count,
                0,
                None,
                Seq::<Option<MetaView>>::empty(),
            );
            &&& o0.result matches Ok(v0) ==> ms.len() == v0.len() && o.result == Ok::<
                Seq<StatementView>,
                ReadError,
            >(kept(r.config, v0, ms)) && o.next == o0.next && o.line_count == o0.line_count
            &&& o0.result is Err && o0.result != Err::<Seq<StatementView>, ReadError>(
                ReadError::UntaggedComment,
            ) ==> o.result == o0.result && o.next == o0.next && o.line_count == o0.line_count
            &&& o.result == Err::<Seq<StatementView>, ReadError>(ReadError::UntaggedComment)
                ==> o0.result == Err::<Seq<StatementView>, ReadError>(ReadError::UntaggedComment)
        }),
{
    let st0 = ScanState {
        next: r.next,
        line_count: r.line_count,
        blank: 0,
        last: None,
        acc: Seq::<StatementView>::empty(),
    };
    let ms = Seq::<Option<MetaView>>::empty();
    assert(kept(r.config, st0.acc, ms) == st0.acc);
    lemma_read_from_excluded(r.lines, r.config, st0, ms);
}

/// Reading `x` lines and then `y` more counts `x + y` lines.
proof fn lemma_add_lines(lc: usize, x: nat, y: nat)
    ensures
        add_lines(add_lines(lc, x), y) == add_lines(lc, x + y),
    decreases y,
{
    if y > 0 {
        lemma_add_lines(lc, x, (y - 1) as nat);
        assert((x + y - 1) as nat == x + (y - 1) as nat);
    }
}

/// Where a statement of a reading from line `next0`, with line count `lc0`,
/// stood: exactly the psql commands (`StatementType::Command`) have no byte
/// offsets, and they have no line; any other statement starts at the
/// beginning of a line `i` of the dump at or after `next0`, and its `line`
/// is the line count when it was read: `lc0` plus the number of lines from
/// `next0` to `i` (wrapping around).
pub open spec fn placed(lines: Seq<Seq<char>>, next0: int, lc0: usize, s: StatementView) -> bool {
    &&& (s.pos is None <==> s.ty == StatementType::Command)
    &&& s.pos is None ==> s.line is None
    &&& s.pos matches Some((a, b)) ==> exists|i: int|
        next0 <= i < lines.len() && a == bytes_before(lines, i) && s.line == Some(
            add_lines(lc0, (i - next0) as nat),
        )
}

proof fn lemma_read_from_placed(
    lines: Seq<Seq<char>>,
    cfg: ConfigView,
    st: ScanState,
    next0: int,
    lc0: usize,
)
    requires
        0 <= next0 <= st.next <= lines.len(),
        st.blank <= 10,
        bytes_before(lines, lines.len() as int) <= usize::MAX,
        st.line_count == add_lines(lc0, (st.next - next0) as nat) || st.next == lines.len(),
        st.last matches Some(c) ==> c.meta.ty != StatementType::Command,
        forall|k: int| 0 <= k < st.acc.len() ==> placed(lines, next0, lc0, #[trigger] st.acc[k]),
    ensures
        read_from(lines, cfg, st).result matches Ok(v) ==> forall|k: int|
            0 <= k < v.len() ==> placed(lines, next0, lc0, #[trigger] v[k]),
    decreases lines.len() - st.next, 11 - st.blank,
{
    let n = lines.len() as int;
    let next = st.next;
    let lc = st.line_count;
    lemma_empty_line_type();
    match line_type(line_at(lines, next)) {
        LineType::Blank => {
            let b = st.blank + 1;
            if b <= 10 {
                let st2 = ScanState {
                    next: advance(lines, next),
                    line_count: lc.wrapping_add(1),
                    blank: b,
                    ..st
                };
                if next < n {
                    lemma_add_lines(lc0, (next - next0) as nat, 1);
                    assert((next - next0) as nat + 1 == (st2.next - next0) as nat);
                }
                lemma_read_from_placed(lines, cfg, st2, next0, lc0);
            }
        },
        LineType::Comment => {
            lemma_first_end_bounds(lines, next, EndKind::NonComment);
            let j = match first_end(lines, next, EndKind::NonComment) {
                Some(j) => j,
                None => n,
            };
            let nx = advance(lines, j);
            let lc2 = add_lines(lc, (j - next + 1) as nat);
            match toc_scan(text_between(lines, next, j)) {
                TocScan::Scanned(e, m) => {
                    lemma_toc_scan_kind(text_between(lines, next, j));
                    lemma_add_lines(lc0, (next - next0) as nat, (j - next + 1) as nat);
                    let st2 = ScanState {
                        next: nx,
                        line_count: lc2,
                        blank: 0,
                        last: Some(CommentBlockView { entry_id: e, meta: m, lineno: lc2 }),
                        acc: st.acc,
                    };
                    lemma_read_from_placed(lines, cfg, st2, next0, lc0);
                },
                _ => {},
            }
        },
        LineType::Command => {
            let s = command_view(lines[next]);
            let acc2 = st.acc.push(s);
            lemma_add_lines(lc0, (next - next0) as nat, 1);
            assert((next - next0) as nat + 1 == (next + 1 - next0) as nat);
            assert forall|k: int| 0 <= k < acc2.len() implies placed(
                lines,
                next0,
                lc0,
                #[trigger] acc2[k],
            ) by {
                if k < st.acc.len() {
                    assert(acc2[k] == st.acc[k]);
                }
            }
            let st2 = ScanState {
                next: next + 1,
                line_count: lc.wrapping_add(1),
                blank: 0,
                last: None,
                acc: acc2,
            };
            lemma_read_from_placed(lines, cfg, st2, next0, lc0);
        },
        LineType::Statement => {
            let ty = match st.last {
                Some(c) => Some(c.meta.ty),
                None => None,
            };
            lemma_first_end_bounds(lines, next, statement_end(ty));
            match first_end(lines, next, statement_end(ty)) {
                None => {},
                Some(j) => {
                    let nx = advance(lines, j);
                    let lc2 = add_lines(lc, (j - next + 1) as nat);
                    let s = read_statement_view(
                        text_between(lines, next, nx),
                        lc,
                        bytes_before(lines, next) as usize,
                        bytes_before(lines, nx) as usize,
                    );
                    lemma_read_statement_spans(lines, next, nx, lc);
                    lemma_add_lines(lc0, (next - next0) as nat, (j - next + 1) as nat);
                    assert(placed(lines, next0, lc0, s)) by {
                        assert((next - next0) as nat == (next - next0));
                    }
                    let after = ScanState {
                        next: nx,
                        line_count: lc2,
                        blank: 0,
                        last: None,
                        acc: st.acc,
                    };
                    let s2 = match st.last {
                        Some(c) => with_comment(s, c),
                        None => s,
                    };
                    assert(placed(lines, next0, lc0, s2));
                    let acc2 = st.acc.push(s2);
                    assert forall|k: int| 0 <= k < acc2.len() implies placed(
                        lines,
                        next0,
                        lc0,
                        #[trigger] acc2[k],
                    ) by {
                        if k < st.acc.len() {
                            assert(acc2[k] == st.acc[k]);
                        }
                    }
                    lemma_read_from_placed(lines, cfg, after, next0, lc0);
                    lemma_read_from_placed(lines, cfg, ScanState { acc: acc2, ..after }, next0, lc0);
                },
            }
        },
    }
}

/// Where the statements of a reading stood: exactly the psql commands
/// (`StatementType::Command`) have no byte offsets, and they have no line;
/// every other statement starts at the beginning of a line of the dump, and
/// its `line` is the number of lines read before it (for a new reader, the
/// number of dump lines before it, wrapping around).
pub proof fn lemma_read_lines(r: DumpReaderView)
    requires
        0 <= r.next <= r.lines.len(),
        bytes_before(r.lines, r.lines.len() as int) <= usize::MAX,
    ensures
        read_outcome(r).result matches Ok(v) ==> forall|k: int|
            0 <= k < v.len() ==> placed(r.lines, r.next, r.line_count, #[trigger] v[k]),
{
    let st = ScanState {
        next: r.next,
        line_count: r.line_count,
        blank: 0,
        last: None,
        acc: Seq::<StatementView>::empty(),
    };
    assert(add_lines(r.line_count, 0) == r.line_count);
    lemma_read_from_placed(r.lines, r.config, st, r.next, r.line_count);
}

/// The reader's state from its exec values.
pub open spec fn scan_state(
    next: usize,
    line_count: usize,
    blank: usize,
    last: Option<CommentBlock>,
    acc: Seq<Statement>,
) -> ScanState {
    ScanState {
        next: next as int,
        line_count: line_count,
        blank: blank as nat,
        last: match last {
            Some(c) => Some(c@),
            None => None,
        },
        acc: statement_views(acc),
    }
}

/// A text read, as a value.
pub open spec fn opt_view(res: Option<Vec<char>>) -> Option<Seq<char>> {
    match res {
        Some(t) => Some(t@),
        None => None,
    }
}

/// Reading lines from the reader `r` up to and including the first one that
/// ends what `kind` reads gives `res` and leaves the reader at `r2`: the text
/// of those lines, or `None` where the dump ends first.
pub open spec fn read_through(
    r: DumpReaderView,
    kind: EndKind,
    res: Option<Seq<char>>,
    r2: DumpReaderView,
) -> bool {
    let lines = r.lines;
    let next = r.next;
    let lc = r.line_count;
    &&& r2.lines == lines
    &&& r2.config == r.config
    &&& match first_end(lines, next, kind) {
        Some(j) => res == Some(text_between(lines, next, advance(lines, j))) && r2.next == advance(
            lines,
            j,
        ) && r2.line_count == add_lines(lc, (j - next + 1) as nat),
        None => res is None && r2.next == lines.len() && r2.line_count == add_lines(
            lc,
            (lines.len() - next + 1) as nat,
        ),
    }
}

/// Reading up to one blank line stops at the first blank line, after one
/// read for each line up to it.
proof fn lemma_blank_end_one(lines: Seq<Seq<char>>, i: int)
    requires
        0 <= i <= lines.len(),
    ensures
        first_end(lines, i, EndKind::BlankLine) == Some(blank_end(lines, i, 1).0),
        blank_end(lines, i, 1).1 == blank_end(lines, i, 1).0 - i + 1,
    decreases lines.len() - i,
{
    lemma_empty_line_type();
    if i < lines.len() && trim(lines[i]).len() != 0 {
        lemma_blank_end_one(lines, i + 1);
    }
}

/// What ends a run of lines, as the reader tests it.
enum LineEnd {
    /// A line that starts with the given text.
    Prefix(Vec<char>),
    /// A line that closes a function body.
    FunctionEnd,
    /// A line that ends with `;` once trimmed.
    Semicolon,
}

impl View for LineEnd {
    type V = EndKind;

    closed spec fn view(&self) -> EndKind {
        match self {
            LineEnd::Prefix(p) => EndKind::StartsWith(p@),
            LineEnd::FunctionEnd => EndKind::FunctionEnd,
            LineEnd::Semicolon => EndKind::Semicolon,
        }
    }
}

// ---------------------------------------------------------------------------
// The reader
// ---------------------------------------------------------------------------

/// A reader of the lines of a dump.
pub struct DumpReader {
    lines: Vec<Vec<char>>,
    widths: Vec<usize>,
    next: usize,
    pos: usize,
    line_count: usize,
    config: Config,
}

/// A `DumpReader` as a value.
pub struct DumpReaderView {
    /// The lines of the dump.
    pub lines: Seq<Seq<char>>,
    /// The index of the next line to read.
    pub next: int,
    /// The number of lines read, wrapping around.
    pub line_count: usize,
    pub config: ConfigView,
}

impl View for DumpReader {
    type V = DumpReaderView;

    closed spec fn view(&self) -> DumpReaderView {
        DumpReaderView {
            lines: self.lines.deep_view(),
            next: self.next as int,
            line_count: self.line_count,
            config: self.config@,
        }
    }
}

/// The outcome of reading from a reader in the state `r`.
pub open spec fn read_outcome(r: DumpReaderView) -> ReadOutcome {
    read_from(
        r.lines,
        r.config,
        ScanState {
            next: r.next,
            line_count: r.line_count,
            blank: 0,
            last: None,
            acc: Seq::<StatementView>::empty(),
        },
    )
}

impl DumpReader {
    /// The reader's own invariant: the next line is within the dump, the
    /// byte offset counts the lines before it, and the dump's bytes can be
    /// counted in a `usize`.
    pub closed spec fn wf(&self) -> bool {
        let lines = self.lines.deep_view();
        &&& self.next <= lines.len()
        &&& self.widths@.len() == lines.len()
        &&& forall|i: int| 0 <= i < lines.len() ==> self.widths@[i] == utf8_len(#[trigger] lines[i])
        &&& self.pos == bytes_before(lines, self.next as int)
        &&& bytes_before(lines, lines.len() as int) <= usize::MAX
    }

    /// A reader at the start of the dump `text`.
    pub fn new(text: &str, config: Config) -> (res: Self)
        requires
            encode_utf8(text@).len() <= usize::MAX,
        ensures
            res.wf(),
            res@ == (DumpReaderView {
                lines: split_lines(text@),
                next: 0,
                line_count: 0,
                config: config@,
            }),
    {
        let chars = chars_of(text);
        let lines = split_text_lines(&chars);
        let ghost lv = lines.deep_view();
        proof {
            lemma_concat_split_lines(text@);
            lemma_utf8_len_is_encoding_len(text@);
            assert(lv.take(lv.len() as int) == lv);
        }
        let mut widths: Vec<usize> = Vec::new();
        let mut i: usize = 0;
        while i < lines.len()
            invariant
                i <= lines@.len(),
                lv == lines.deep_view(),
                bytes_before(lv, lv.len() as int) <= usize::MAX,
                widths@.len() == i,
                forall|k: int| 0 <= k < i ==> widths@[k] == utf8_len(#[trigger] lv[k]),
            decreases lines.len() - i,
        {
            proof {
                lemma_bytes_before_step(lv, i as int);
                lemma_bytes_before_mono(lv, i + 1, lv.len() as int);
            }
            assert(lines[i as int]@ =~= lv[i as int]);
            let w = utf8_len_bounded(&lines[i]);
            widths.push(w);
            i = i + 1;
        }
        proof {
            assert(lv.take(0) == Seq::<Seq<char>>::empty());
        }
        DumpReader { lines, widths, next: 0, pos: 0, line_count: 0, config }
    }

    /// The kind of the next line, without reading it.
    fn next_line_type(&self) -> (res: LineType)
        requires
            self.wf(),
        ensures
            res == line_type(line_at(self@.lines, self@.next)),
    {
        if self.next >= self.lines.len() {
            proof {
                lemma_empty_line_type();
            }
            return LineType::Blank;
        }
        let line = &self.lines[self.next];
        assert(line@ =~= self@.lines[self.next as int]);
        let t = trim_chars(line);
        if t.len() == 0 {
            LineType::Blank
        } else if has_prefix(&t, &chars_of("--")) {
            LineType::Comment
        } else if has_prefix(&t, &chars_of("\\")) {
            LineType::Command
        } else {
            LineType::Statement
        }
    }

    /// Reads the next line (the empty text at the end of the dump).
    fn read_line(&mut self) -> (res: Vec<char>)
        requires
            old(self).wf(),
        ensures
            final(self).wf(),
            res@ == line_at(old(self)@.lines, old(self)@.next),
            final(self)@ == (DumpReaderView {
                next: advance(old(self)@.lines, old(self)@.next),
                line_count: old(self)@.line_count.wrapping_add(1),
                ..old(self)@
            }),
    {
        let ghost lv = self.lines.deep_view();
        self.line_count = self.line_count.wrapping_add(1);
        if self.next < self.lines.len() {
            let line = slice_chars(&self.lines[self.next], 0, self.lines[self.next].len());
            proof {
                assert(self.lines[self.next as int]@ =~= lv[self.next as int]);
                assert(self.lines[self.next as int]@.subrange(
                    0,
                    self.lines[self.next as int]@.len() as int,
                ) =~= lv[self.next as int]);
                lemma_bytes_before_step(lv, self.next as int);
                lemma_bytes_before_mono(lv, self.next + 1, lv.len() as int);
            }
            self.pos = self.pos + self.widths[self.next];
            self.next = self.next + 1;
            line
        } else {
            Vec::new()
        }
    }

    /// Whether `line` ends what `end` reads.
    fn line_ends(end: &LineEnd, line: &[char]) -> (res: bool)
        ensures
            res == ends_at(end@, line@),
    {
        match end {
            LineEnd::Prefix(p) => has_prefix(line, p),
            LineEnd::FunctionEnd => {
                let t = trim_chars(line);
                same_chars(&t, &chars_of("END $_$;")) || same_chars(&t, &chars_of("$_$;"))
                    || same_chars(&t, &chars_of("$$;"))
            },
            LineEnd::Semicolon => {
                let t = trim_chars(line);
                has_suffix(&t, &chars_of(";"))
            },
        }
    }

    /// Reads lines up to and including the first one that ends what `end`
    /// reads, and gives their text; `None` where the dump ends first (after
    /// the empty read at its end).
    fn read_until_end(&mut self, end: &LineEnd) -> (res: Option<Vec<char>>)
        requires
            old(self).wf(),
        ensures
            final(self).wf(),
            read_through(old(self)@, end@, opt_view(res), final(self)@),
    {
        let ghost kind = end@;
        let ghost lines = self@.lines;
        let ghost start = self@.next;
        let ghost lc0 = self@.line_count;
        proof {
            lemma_first_end_bounds(lines, start, kind);
        }
        let mut contents: Vec<char> = Vec::new();
        assert(lines.subrange(start, start) =~= Seq::<Seq<char>>::empty());
        loop
            invariant
                self.wf(),
                self@.lines == lines,
                lines == old(self)@.lines,
                start == old(self)@.next,
                lc0 == old(self)@.line_count,
                self@.config == old(self)@.config,
                kind == end@,
                0 <= start <= self@.next <= lines.len(),
                first_end(lines, start, kind) == first_end(lines, self@.next, kind),
                contents@ == text_between(lines, start, self@.next),
                self@.line_count == add_lines(lc0, (self@.next - start) as nat),
            decreases lines.len() + 1 - self@.next,
        {
            let ghost k = self@.next;
            let at_end = self.next >= self.lines.len();
            let line = self.read_line();
            proof {
                if k < lines.len() {
                    lemma_text_between_step(lines, start, k);
                } else {
                    assert(first_end(lines, k + 1, kind) is None);
                }
            }
            extend_chars(&mut contents, &line);
            if Self::line_ends(end, &line) {
                proof {
                    if k >= lines.len() {
                        assert(contents@ =~= text_between(lines, start, k));
                    }
                }
                return Some(contents);
            }
            if at_end {
                return None;
            }
        }
    }

    /// Reads lines up to and including the first one that starts with
    /// `pat`.
    fn read_until(&mut self, pat: &[char]) -> (res: Option<Vec<char>>)
        requires
            old(self).wf(),
        ensures
            final(self).wf(),
            read_through(old(self)@, EndKind::StartsWith(pat@), opt_view(res), final(self)@),
    {
        let p = slice_chars(pat, 0, pat.len());
        assert(p@ =~= pat@);
        let end = LineEnd::Prefix(p);
        self.read_until_end(&end)
    }

    /// Reads lines up to and including the one that closes a function body.
    fn read_until_eofunc(&mut self) -> (res: Option<Vec<char>>)
        requires
            old(self).wf(),
        ensures
            final(self).wf(),
            read_through(old(self)@, EndKind::FunctionEnd, opt_view(res), final(self)@),
    {
        self.read_until_end(&LineEnd::FunctionEnd)
    }

    /// Reads lines up to and including the first one that ends with `;`
    /// once trimmed.
    fn read_until_ends_semi(&mut self) -> (res: Option<Vec<char>>)
        requires
            old(self).wf(),
        ensures
            final(self).wf(),
            read_through(old(self)@, EndKind::Semicolon, opt_view(res), final(self)@),
    {
        self.read_until_end(&LineEnd::Semicolon)
    }

    /// Reads lines up to and including the `n`-th blank one, and gives their
    /// text.  The end of the dump reads as a blank line each time it is
    /// read, so this always gives a text.
    fn read_until_n_empty_lines(&mut self, n: usize) -> (res: Option<Vec<char>>)
        requires
            old(self).wf(),
            n >= 1,
        ensures
            final(self).wf(),
            final(self)@.lines == old(self)@.lines,
            final(self)@.config == old(self)@.config,
            ({
                let lines = old(self)@.lines;
                let next = old(self)@.next;
                let e = blank_end(lines, next, n as nat);
                &&& res matches Some(t) && t@ == text_between(lines, next, advance(lines, e.0))
                &&& final(self)@.next == advance(lines, e.0)
                &&& final(self)@.line_count == add_lines(old(self)@.line_count, e.1)
            }),
    {
        let ghost lines = self@.lines;
        let ghost start = self@.next;
        let ghost lc0 = self@.line_count;
        let ghost goal = blank_end(lines, start, n as nat);
        let ghost mut reads: nat = 0;
        let mut count: usize = 0;
        let mut contents: Vec<char> = Vec::new();
        assert(lines.subrange(start, start) =~= Seq::<Seq<char>>::empty());
        loop
            invariant
                self.wf(),
                self@.lines == lines,
                lines == old(self)@.lines,
                start == old(self)@.next,
                lc0 == old(self)@.line_count,
                self@.config == old(self)@.config,
                0 <= start <= self@.next <= lines.len(),
                count < n,
                goal == blank_end(lines, start, n as nat),
                blank_end(lines, self@.next, (n - count) as nat).0 == goal.0,
                blank_end(lines, self@.next, (n - count) as nat).1 + reads == goal.1,
                contents@ == text_between(lines, start, self@.next),
                self@.line_count == add_lines(lc0, reads),
            decreases lines.len() - self@.next, n - count,
        {
            let ghost k = self@.next;
            let ghost m = (n - count) as nat;
            let line = self.read_line();
            proof {
                if k < lines.len() {
                    lemma_text_between_step(lines, start, k);
                } else {
                    assert(contents@ + line@ =~= contents@);
                }
                reads = reads + 1;
            }
            extend_chars(&mut contents, &line);
            let t = trim_chars(&line);
            proof {
                if k >= lines.len() {
                    assert(trim_start(line@) == line@);
                    assert(trim_end(line@) == line@);
                }
            }
            if t.len() == 0 {
                count = count + 1;
            }
            if count == n {
                return Some(contents);
            }
        }
    }

    /// Reads a block of `--` lines and the line after it.
    fn read_comment_block(&mut self) -> (res: Result<CommentBlock, ReadError>)
        requires
            old(self).wf(),
        ensures
            final(self).wf(),
            final(self)@.lines == old(self)@.lines,
            final(self)@.config == old(self)@.config,
            ({
                let lines = old(self)@.lines;
                let next = old(self)@.next;
                let j = match first_end(lines, next, EndKind::NonComment) {
                    Some(j) => j,
                    None => lines.len() as int,
                };
                let lc2 = add_lines(old(self)@.line_count, (j - next + 1) as nat);
                &&& final(self)@.next == advance(lines, j)
                &&& final(self)@.line_count == lc2
                &&& match toc_scan(text_between(lines, next, j)) {
                    TocScan::Aborted => res == Err::<CommentBlock, ReadError>(
                        ReadError::MalformedTocLine,
                    ),
                    TocScan::Rejected => res == Err::<CommentBlock, ReadError>(
                        ReadError::InvalidData,
                    ),
                    TocScan::Scanned(e, m) => res matches Ok(c) && c@ == (CommentBlockView {
                        entry_id: e,
                        meta: m,
                        lineno: lc2,
                    }),
                }
            }),
    {
        let ghost lines = self@.lines;
        let ghost start = self@.next;
        let ghost lc0 = self@.line_count;
        proof {
            lemma_first_end_bounds(lines, start, EndKind::NonComment);
            lemma_empty_line_type();
        }
        let ghost j = match first_end(lines, start, EndKind::NonComment) {
            Some(j) => j,
            None => lines.len() as int,
        };
        proof {
            reveal_strlit("--");
        }
        assert(first_end(lines, start, EndKind::NonComment) == Some(j));
        let mut block: Vec<char> = Vec::new();
        assert(lines.subrange(start, start) =~= Seq::<Seq<char>>::empty());
        let dashes = chars_of("--");
        loop
            invariant_except_break
                start <= self@.next <= j <= lines.len(),
                first_end(lines, start, EndKind::NonComment) == first_end(
                    lines,
                    self@.next,
                    EndKind::NonComment,
                ),
                block@ == text_between(lines, start, self@.next),
                self@.line_count == add_lines(lc0, (self@.next - start) as nat),
            invariant
                self.wf(),
                self@.lines == lines,
                lines == old(self)@.lines,
                0 <= start,
                self@.config == old(self)@.config,
                dashes@ == "--"@,
                first_end(lines, start, EndKind::NonComment) == Some(j),
            ensures
                self@.next == advance(lines, j),
                self@.line_count == add_lines(lc0, (j - start + 1) as nat),
                block@ == text_between(lines, start, j),
            decreases lines.len() + 1 - self@.next,
        {
            let ghost k = self@.next;
            let line = self.read_line();
            if line.len() == 0 || !has_prefix(&line, &dashes) {
                proof {
                    reveal_strlit("--");
                    assert(ends_at(EndKind::NonComment, line_at(lines, k)));
                }
                break;
            }
            proof {
                lemma_text_between_step(lines, start, k);
                lemma_first_end_bounds(lines, k + 1, EndKind::NonComment);
            }
            extend_chars(&mut block, &line);
        }
        let mut comment = match CommentBlock::parse_chars(&block) {
            Ok(c) => c,
            Err(CommentError::Unparsable) => {
                return Err(ReadError::InvalidData);
            },
            Err(CommentError::MalformedToc) => {
                return Err(ReadError::MalformedTocLine);
            },
        };
        comment.lineno = self.line_count;
        Ok(comment)
    }

    /// Reads a statement of the kind that a comment block names, or one
    /// without a comment block.
    fn read_statement(&mut self, statement_type: Option<StatementType>) -> (res: Result<
        Statement,
        ReadError,
    >)
        requires
            old(self).wf(),
        ensures
            final(self).wf(),
            final(self)@.lines == old(self)@.lines,
            final(self)@.config == old(self)@.config,
            ({
                let lines = old(self)@.lines;
                let next = old(self)@.next;
                let lc = old(self)@.line_count;
                match first_end(lines, next, statement_end(statement_type)) {
                    Some(j) => res matches Ok(s) && s@ == read_statement_view(
                        text_between(lines, next, advance(lines, j)),
                        lc,
                        bytes_before(lines, next) as usize,
                        bytes_before(lines, advance(lines, j)) as usize,
                    ) && final(self)@.next == advance(lines, j) && final(self)@.line_count
                        == add_lines(lc, (j - next + 1) as nat),
                    None => res == Err::<Statement, ReadError>(ReadError::UnexpectedEof)
                        && final(self)@.next == lines.len() && final(self)@.line_count
                        == add_lines(lc, (lines.len() - next + 1) as nat),
                }
            }),
    {
        let initial_pos = self.pos;
        let initial_line_count = self.line_count;
        proof {
            lemma_blank_end_one(self@.lines, self@.next);
        }
        let got = match statement_type {
            Some(StatementType::TableData) => self.read_until(&chars_of("\\.")),
            Some(StatementType::Function) => self.read_until_eofunc(),
            Some(_) => self.read_until_n_empty_lines(1),
            None => self.read_until_ends_semi(),
        };
        match got {
            Some(s) => {
                let sql = string_of(&s);
                Ok(Statement::new(sql, initial_line_count, initial_pos, self.pos))
            },
            None => Err(ReadError::UnexpectedEof),
        }
    }

    /// Reads statements until more than ten blank lines in a row, or the
    /// end of the dump after ten blank reads, end the reading.
    pub fn read(&mut self) -> (res: Result<Vec<Statement>, ReadError>)
        requires
            old(self).wf(),
        ensures
            final(self).wf(),
            final(self)@.lines == old(self)@.lines,
            final(self)@.config == old(self)@.config,
            final(self)@.next == read_outcome(old(self)@).next,
            final(self)@.line_count == read_outcome(old(self)@).line_count,
            match res {
                Ok(v) => read_outcome(old(self)@).result == Ok::<
                    Seq<StatementView>,
                    ReadError,
                >(statement_views(v@)),
                Err(e) => read_outcome(old(self)@).result == Err::<
                    Seq<StatementView>,
                    ReadError,
                >(e),
            },
    {
        let ghost lines = self@.lines;
        let ghost cfg = self@.config;
        let ghost goal = read_outcome(self@);
        let mut statements: Vec<Statement> = Vec::new();
        let mut last_toc_comment: Option<CommentBlock> = None;
        let mut blank_count: usize = 0;
        assert(statement_views(statements@) =~= Seq::<StatementView>::empty());
        loop
            invariant
                self.wf(),
                self@.lines == lines,
                self@.config == cfg,
                cfg == old(self)@.config,
                lines == old(self)@.lines,
                goal == read_outcome(old(self)@),
                blank_count <= 10,
                read_from(
                    lines,
                    cfg,
                    scan_state(
                        self.next,
                        self.line_count,
                        blank_count,
                        last_toc_comment,
                        statements@,
                    ),
                ) == goal,
            decreases lines.len() - self@.next, 11 - blank_count,
        {
            let ghost st = scan_state(
                self.next,
                self.line_count,
                blank_count,
                last_toc_comment,
                statements@,
            );
            assert(self@.next == st.next);
            match self.next_line_type() {
                LineType::Blank => {
                    blank_count = blank_count + 1;
                    if blank_count > 10 {
                        self.line_count = self.line_count.wrapping_sub(blank_count);
                        return Ok(statements);
                    }
                    let _dummy = self.read_line();
                    continue;
                },
                LineType::Comment => {
                    proof {
                        lemma_empty_line_type();
                        lemma_first_end_bounds(lines, st.next, EndKind::NonComment);
                    }
                    blank_count = 0;
                    match self.read_comment_block() {
                        Ok(c) => {
                            last_toc_comment = Some(c);
                        },
                        Err(e) => {
                            return Err(e);
                        },
                    }
                },
                LineType::Statement => {
                    proof {
                        lemma_empty_line_type();
                        let ty = match st.last {
                            Some(c) => Some(c.meta.ty),
                            None => None,
                        };
                        lemma_first_end_bounds(lines, st.next, statement_end(ty));
                    }
                    let ghost views_before = statement_views(statements@);
                    match last_toc_comment {
                        Some(comment) => {
                            let exclude = has_string(
                                &self.config.exclude_schema,
                                &comment.meta.schema,
                            ) || (comment.meta.ty == StatementType::Extension && has_string(
                                &self.config.exclude_extension,
                                &comment.meta.name,
                            )) || (comment.meta.ty == StatementType::TableData && has_string(
                                &self.config.exclude_table_data,
                                &comment.meta.name,
                            ));
                            let mut statement = match self.read_statement(Some(comment.meta.ty)) {
                                Ok(s) => s,
                                Err(e) => {
                                    return Err(e);
                                },
                            };
                            if !exclude {
                                if !comment.is_toc() {
                                    return Err(ReadError::UntaggedComment);
                                }
                                statement.set_from_comment_block(comment);
                                statements.push(statement);
                                assert(statement_views(statements@) =~= views_before.push(
                                    statements@.last()@,
                                ));
                            }
                        },
                        None => {
                            let statement = match self.read_statement(None) {
                                Ok(s) => s,
                                Err(e) => {
                                    return Err(e);
                                },
                            };
                            statements.push(statement);
                            assert(statement_views(statements@) =~= views_before.push(
                                statements@.last()@,
                            ));
                        },
                    }
                    blank_count = 0;
                    last_toc_comment = None;
                },
                LineType::Command => {
                    proof {
                        lemma_empty_line_type();
                    }
                    let ghost views_before = statement_views(statements@);
                    let buf = self.read_line();
                    let sql = string_of(&buf);
                    statements.push(Statement::from_command(sql));
                    assert(statement_views(statements@) =~= views_before.push(
                        statements@.last()@,
                    ));
                    blank_count = 0;
                    last_toc_comment = None;
                },
            }
        }
    }
}

} // verus!
