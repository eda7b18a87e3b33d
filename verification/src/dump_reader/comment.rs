//! The comment blocks of a dump, and the table-of-contents entries they name.
//!
//! pg_dump writes a block of `--` comment lines before most statements:
//!
//! ```text
//! --
//! -- TOC entry 203 (class 1259 OID 16386)
//! -- Name: users; Type: TABLE; Schema: public; Owner: postgres
//! --
//! ```
//!
//! The entry number comes from the `-- TOC` line and the name, kind, schema
//! and owner from the `-- Name:` (or `-- Data for Name:`) line.

use vstd::prelude::*;
use vstd::utf8::encode_utf8;

use crate::dump_reader::statement::{
    lemma_type_name_roundtrip, type_display, type_from_name, StatementType,
};
use crate::text::{
    char_width, chars_of, decimal, find_from, lemma_find_from_first, nowhere, occurs_at, decimal_chars, extend_chars, extend_str, find, find_chars, has_prefix,
    lemma_find_bounds, same_chars, slice_chars, split_chars, split_on, starts_with, string_of, trim,
    trim_chars, trim_end, trim_start, utf8_width, is_ws, lemma_trim_end_is_prefix,
};

verus! {

// ---------------------------------------------------------------------------
// Values and their views
// ---------------------------------------------------------------------------

/// What a `-- Name:` line says of an entry.
#[derive(Debug, Clone)]
pub struct Meta {
    pub name: String,
    pub ty: StatementType,
    pub schema: String,
    pub owner: String,
}

/// A `Meta` as a value.
pub struct MetaView {
    pub name: Seq<char>,
    pub ty: StatementType,
    pub schema: Seq<char>,
    pub owner: Seq<char>,
}

impl View for Meta {
    type V = MetaView;

    open spec fn view(&self) -> MetaView {
        MetaView { name: self.name@, ty: self.ty, schema: self.schema@, owner: self.owner@ }
    }
}

/// The `Meta` that names nothing.
pub open spec fn empty_meta() -> MetaView {
    MetaView {
        name: Seq::<char>::empty(),
        ty: StatementType::Unknown,
        schema: Seq::<char>::empty(),
        owner: Seq::<char>::empty(),
    }
}

impl Default for Meta {
    fn default() -> (res: Self)
        ensures
            res@ == empty_meta(),
    {
        Meta {
            name: String::new(),
            ty: StatementType::Unknown,
            schema: String::new(),
            owner: String::new(),
        }
    }
}

/// A block of comment lines, with the entry it names and the number of lines
/// read when it ended.
#[derive(Debug, Clone)]
pub struct CommentBlock {
    pub entry_id: Option<u32>,
    pub meta: Meta,
    pub lineno: usize,
}

/// A `CommentBlock` as a value.
pub struct CommentBlockView {
    pub entry_id: Option<u32>,
    pub meta: MetaView,
    pub lineno: usize,
}

impl View for CommentBlock {
    type V = CommentBlockView;

    open spec fn view(&self) -> CommentBlockView {
        CommentBlockView { entry_id: self.entry_id, meta: self.meta@, lineno: self.lineno }
    }
}

impl Default for CommentBlock {
    fn default() -> (res: Self)
        ensures
            res@ == (CommentBlockView { entry_id: None, meta: empty_meta(), lineno: 0 }),
    {
        CommentBlock { entry_id: None, meta: Meta::default(), lineno: 0 }
    }
}

/// Why a comment block could not be read.
#[derive(Debug, Clone, Copy, PartialEq, Eq, Structural)]
pub enum CommentError {
    /// A `-- TOC` line names no number, or a `-- Name:` line has a part
    /// without a `:`.
    Unparsable,
    /// A `-- TOC` line ends where the entry number's scanner still expects
    /// text (for instance `-- TOC` alone), or its number exceeds `u64`:
    /// the scanner cannot go on.
    MalformedToc,
}

// ---------------------------------------------------------------------------
// The scanner of `-- TOC` lines, on bytes
// ---------------------------------------------------------------------------

/// The first index at or after `p` that does not hold a space.
pub open spec fn ws_end(d: Seq<u8>, p: int) -> int
    decreases d.len() - p,
{
    if 0 <= p < d.len() && d[p] == 32u8 {
        ws_end(d, p + 1)
    } else {
        p
    }
}

/// Reading the token `tok` at `p`: where the scanner stands afterwards, or
/// `None` where it cannot go on (the token would run past the end, or the
/// spaces after it reach the end).  A token that is not there is skipped
/// without moving.
pub open spec fn token_step(d: Seq<u8>, p: int, tok: Seq<u8>) -> Option<int> {
    if p + tok.len() > d.len() {
        None
    } else if d.subrange(p, p + tok.len()) == tok {
        let q = ws_end(d, p + tok.len());
        if q < d.len() {
            Some(q)
        } else {
            None
        }
    } else {
        Some(p)
    }
}

/// An ASCII decimal digit.
pub open spec fn is_digit(b: u8) -> bool {
    48u8 <= b && b <= 57u8
}

/// The first index at or after `p` that does not hold a digit.
pub open spec fn digits_end(d: Seq<u8>, p: int) -> int
    decreases d.len() - p,
{
    if 0 <= p < d.len() && is_digit(d[p]) {
        digits_end(d, p + 1)
    } else {
        p
    }
}

/// The number that a run of digits denotes.
pub open spec fn digits_value(ds: Seq<u8>) -> nat
    decreases ds.len(),
{
    if ds.len() == 0 {
        0
    } else {
        digits_value(ds.drop_last()) * 10 + (ds.last() - 48u8) as nat
    }
}

/// What reading the entry number of a `-- TOC` line gives.
pub enum EntryIdScan {
    /// The scanner cannot go on.
    Aborts,
    /// No digit follows the tokens.
    NoNumber,
    /// The entry number, truncated to 32 bits.
    Id(u32),
}

/// Reads `--`, `TOC` and `entry` (each one skipped where absent, and the
/// spaces after it), then the digits that follow.
pub open spec fn entry_id_scan(d: Seq<u8>) -> EntryIdScan {
    match token_step(d, 0, encode_utf8("--"@)) {
        None => EntryIdScan::Aborts,
        Some(p1) => match token_step(d, p1, encode_utf8("TOC"@)) {
            None => EntryIdScan::Aborts,
            Some(p2) => match token_step(d, p2, encode_utf8("entry"@)) {
                None => EntryIdScan::Aborts,
                Some(p3) => {
                    let e = digits_end(d, p3);
                    if e == p3 {
                        EntryIdScan::NoNumber
                    } else if digits_value(d.subrange(p3, e)) > u64::MAX {
                        EntryIdScan::Aborts
                    } else {
                        EntryIdScan::Id((digits_value(d.subrange(p3, e)) as u64) as u32)
                    }
                },
            },
        },
    }
}

proof fn lemma_ws_end_bounds(d: Seq<u8>, p: int)
    requires
        0 <= p <= d.len(),
    ensures
        p <= ws_end(d, p) <= d.len(),
        forall|k: int| p <= k < ws_end(d, p) ==> d[k] == 32u8,
    decreases d.len() - p,
{
    if p < d.len() && d[p] == 32u8 {
        lemma_ws_end_bounds(d, p + 1);
    }
}

proof fn lemma_digits_end_bounds(d: Seq<u8>, p: int)
    requires
        0 <= p <= d.len(),
    ensures
        p <= digits_end(d, p) <= d.len(),
        forall|k: int| p <= k < digits_end(d, p) ==> is_digit(#[trigger] d[k]),
        digits_end(d, p) < d.len() ==> !is_digit(d[digits_end(d, p)]),
    decreases d.len() - p,
{
    if p < d.len() && is_digit(d[p]) {
        lemma_digits_end_bounds(d, p + 1);
    }
}

proof fn lemma_digits_value_mono(ds: Seq<u8>, j: int)
    requires
        0 <= j <= ds.len(),
        forall|k: int| 0 <= k < ds.len() ==> is_digit(#[trigger] ds[k]),
    ensures
        digits_value(ds.take(j)) <= digits_value(ds),
    decreases ds.len(),
{
    if j < ds.len() {
        lemma_digits_value_mono(ds.drop_last(), j);
        assert(ds.drop_last().take(j) == ds.take(j));
    } else {
        assert(ds.take(j) == ds);
    }
}

/// A scanner over the bytes of a line.
pub struct Parser<'a> {
    pos: usize,
    data: &'a [u8],
}

impl<'a> Parser<'a> {
    /// The bytes scanned.
    pub closed spec fn data_view(&self) -> Seq<u8> {
        self.data@
    }

    /// The index the scanner stands at.
    pub closed spec fn pos_view(&self) -> int {
        self.pos as int
    }

    /// A scanner at the start of the bytes of `data`.
    pub fn new(data: &'a str) -> (res: Self)
        ensures
            res.data_view() == encode_utf8(data@),
            res.pos_view() == 0,
    {
        Parser { data: data.as_bytes(), pos: 0 }
    }

    /// Whether `read_token(tok)` could not go on.
    fn token_aborts(&self, tok: &str) -> (res: bool)
        requires
            self.pos <= self.data@.len(),
        ensures
            res == (token_step(self.data@, self.pos as int, encode_utf8(tok@)) is None),
    {
        let t = tok.as_bytes();
        if t.len() > self.data.len() - self.pos {
            return true;
        }
        if self.bytes_match(t) {
            let end = self.pos + t.len();
            proof {
                lemma_ws_end_bounds(self.data@, end as int);
            }
            let mut q = end;
            while q < self.data.len() && self.data[q] == 32u8
                invariant
                    end <= q <= self.data@.len(),
                    ws_end(self.data@, end as int) == ws_end(self.data@, q as int),
                decreases self.data.len() - q,
            {
                q = q + 1;
            }
            q >= self.data.len()
        } else {
            false
        }
    }

    /// Whether the bytes `t` stand at the scanner's index.
    fn bytes_match(&self, t: &[u8]) -> (res: bool)
        requires
            self.pos + t@.len() <= self.data@.len(),
        ensures
            res == (self.data@.subrange(self.pos as int, self.pos + t@.len()) == t@),
    {
        let mut k: usize = 0;
        while k < t.len()
            invariant
                self.pos + t@.len() <= self.data@.len(),
                k <= t@.len(),
                forall|m: int| 0 <= m < k ==> self.data@[self.pos + m] == t@[m],
            decreases t.len() - k,
        {
            assert(self.pos + k < self.data@.len());
            assert(self.data@.len() == self.data.len());
            if self.data[self.pos + k] != t[k] {
                assert(self.data@.subrange(self.pos as int, self.pos + t@.len())[k as int]
                    != t@[k as int]);
                return false;
            }
            k = k + 1;
        }
        assert(self.data@.subrange(self.pos as int, self.pos + t@.len()) == t@);
        true
    }

    /// Reads the token `tok` and the spaces after it, if `tok` stands at the
    /// scanner's index; else does not move.
    fn read_token(&mut self, tok: &str) -> (res: Option<String>)
        requires
            old(self).pos <= old(self).data@.len(),
            token_step(old(self).data@, old(self).pos as int, encode_utf8(tok@)) is Some,
        ensures
            final(self).data@ == old(self).data@,
            final(self).pos as int == token_step(
                old(self).data@,
                old(self).pos as int,
                encode_utf8(tok@),
            )->0,
            res is Some <==> old(self).data@.subrange(
                old(self).pos as int,
                old(self).pos + encode_utf8(tok@).len(),
            ) == encode_utf8(tok@),
            res matches Some(s) ==> s@ == tok@,
    {
        let t = tok.as_bytes();
        assert(self.data@.len() == self.data.len());
        if self.bytes_match(t) {
            self.pos = self.pos + t.len();
            proof {
                lemma_ws_end_bounds(self.data@, self.pos as int);
            }
            self.read_whitespace();
            Some(tok.to_owned())
        } else {
            None
        }
    }

    /// Skips the spaces at the scanner's index.
    fn read_whitespace(&mut self)
        requires
            old(self).pos <= old(self).data@.len(),
            ws_end(old(self).data@, old(self).pos as int) < old(self).data@.len(),
        ensures
            final(self).data@ == old(self).data@,
            final(self).pos == ws_end(old(self).data@, old(self).pos as int),
    {
        let ghost target = ws_end(self.data@, self.pos as int);
        proof {
            lemma_ws_end_bounds(self.data@, self.pos as int);
        }
        while self.data[self.pos] == 32u8
            invariant
                self.pos <= target < self.data@.len(),
                self.data@ == old(self).data@,
                self.data@.len() == self.data.len(),
                ws_end(self.data@, self.pos as int) == target,
            decreases target - self.pos,
        {
            proof {
                lemma_ws_end_bounds(self.data@, self.pos + 1);
            }
            self.pos = self.pos + 1;
        }
    }

    /// Whether the digits at the scanner's index denote at most `u64::MAX`.
    fn number_fits(&self) -> (res: bool)
        requires
            self.pos <= self.data@.len(),
        ensures
            res == (digits_value(
                self.data@.subrange(self.pos as int, digits_end(self.data@, self.pos as int)),
            ) <= u64::MAX),
    {
        let ghost d = self.data@;
        let ghost p = self.pos as int;
        proof {
            lemma_digits_end_bounds(d, p);
        }
        let ghost e = digits_end(d, p);
        let mut q = self.pos;
        let mut n: u64 = 0;
        assert(d.subrange(p, p) == Seq::<u8>::empty());
        while q < self.data.len() && 48u8 <= self.data[q] && self.data[q] <= 57u8
            invariant
                0 <= p <= q <= e <= d.len(),
                e == digits_end(d, p),
                d == self.data@,
                d.len() == self.data.len(),
                p == self.pos,
                n == digits_value(d.subrange(p, q as int)),
                forall|k: int| p <= k < e ==> is_digit(#[trigger] d[k]),
                e < d.len() ==> !is_digit(d[e]),
            decreases self.data.len() - q,
        {
            assert(d.subrange(p, q + 1).drop_last() =~= d.subrange(p, q as int));
            let digit = (self.data[q] - 48u8) as u64;
            if n > (u64::MAX - digit) / 10 {
                proof {
                    let ds = d.subrange(p, e);
                    assert forall|k: int| 0 <= k < ds.len() implies is_digit(#[trigger] ds[k]) by {
                        assert(ds[k] == d[p + k]);
                    }
                    lemma_digits_value_mono(ds, q + 1 - p);
                    assert(ds.take(q + 1 - p) =~= d.subrange(p, q + 1));
                    assert(digits_value(d.subrange(p, q + 1)) == n * 10 + digit);
                    assert(n * 10 + digit > u64::MAX) by (nonlinear_arith)
                        requires
                            n > (u64::MAX - digit) / 10,
                            digit <= 9,
                    ;
                    assert(digits_value(ds) > u64::MAX);
                }
                return false;
            }
            assert(n * 10 + digit <= u64::MAX) by (nonlinear_arith)
                requires
                    n <= (u64::MAX - digit) / 10,
                    digit <= 9,
            ;
            n = n * 10 + digit;
            q = q + 1;
        }
        assert(q == e);
        true
    }

    /// Reads the digits at the scanner's index: the number they denote, or
    /// `None` where no digit stands there.
    fn read_number(&mut self) -> (res: Option<u64>)
        requires
            old(self).pos <= old(self).data@.len(),
            digits_value(
                old(self).data@.subrange(
                    old(self).pos as int,
                    digits_end(old(self).data@, old(self).pos as int),
                ),
            ) <= u64::MAX,
        ensures
            final(self).data@ == old(self).data@,
            ({
                let d = old(self).data@;
                let p = old(self).pos as int;
                let e = digits_end(d, p);
                if e == p {
                    res is None && final(self).pos == old(self).pos
                } else {
                    res == Some(digits_value(d.subrange(p, e)) as u64) && final(self).pos == e
                }
            }),
    {
        let ghost d = self.data@;
        let ghost p = self.pos as int;
        proof {
            lemma_digits_end_bounds(d, p);
        }
        let ghost e = digits_end(d, p);
        let ghost ds = d.subrange(p, e);
        proof {
            assert forall|k: int| 0 <= k < ds.len() implies is_digit(#[trigger] ds[k]) by {
                assert(ds[k] == d[p + k]);
            }
        }
        let mut pos = self.pos;
        let mut number: u64 = 0;
        let data = self.data;
        assert(d.subrange(p, p) == Seq::<u8>::empty());
        while pos < data.len() && 48u8 <= data[pos] && data[pos] <= 57u8
            invariant
                0 <= p <= pos <= e <= d.len(),
                d == data@,
                d.len() == data.len(),
                number == digits_value(d.subrange(p, pos as int)),
                forall|k: int| p <= k < e ==> is_digit(#[trigger] d[k]),
                e < d.len() ==> !is_digit(d[e]),
                forall|k: int| 0 <= k < ds.len() ==> is_digit(#[trigger] ds[k]),
                ds == d.subrange(p, e),
                digits_value(ds) <= u64::MAX,
            decreases data.len() - pos,
        {
            let ch = data[pos];
            assert(d.subrange(p, pos + 1).drop_last() =~= d.subrange(p, pos as int));
            proof {
                lemma_digits_value_mono(ds, pos + 1 - p);
                assert(ds.take(pos + 1 - p) =~= d.subrange(p, pos + 1));
            }
            number = number * 10u64 + (ch - 48u8) as u64;
            pos = pos + 1;
        }
        assert(pos == e);
        if pos == self.pos {
            None
        } else {
            self.pos = pos;
            Some(number)
        }
    }
}

/// Whether reading the entry number of `toc_str` stops the scanner.
pub fn toc_entry_id_aborts(toc_str: &str) -> (res: bool)
    ensures
        res == (entry_id_scan(encode_utf8(toc_str@)) is Aborts),
{
    match scan_entry_id(toc_str) {
        EntryIdScan::Aborts => true,
        _ => false,
    }
}

/// Reads the entry number of a `-- TOC` line, telling apart a scanner that
/// cannot go on.
fn scan_entry_id(toc_str: &str) -> (res: EntryIdScan)
    ensures
        res == entry_id_scan(encode_utf8(toc_str@)),
{
    let mut p = Parser::new(toc_str);
    if p.token_aborts("--") {
        return EntryIdScan::Aborts;
    }
    p.read_token("--");
    if p.token_aborts("TOC") {
        return EntryIdScan::Aborts;
    }
    p.read_token("TOC");
    if p.token_aborts("entry") {
        return EntryIdScan::Aborts;
    }
    p.read_token("entry");
    if !p.number_fits() {
        proof {
            lemma_digits_end_bounds(p.data@, p.pos as int);
        }
        return EntryIdScan::Aborts;
    }
    match p.read_number() {
        Some(n) => EntryIdScan::Id(n as u32),
        None => EntryIdScan::NoNumber,
    }
}

// ---------------------------------------------------------------------------
// `-- Name:` lines
// ---------------------------------------------------------------------------

/// Whether the first two bytes of `line` end on a character boundary: its
/// first character takes two bytes, or its first two take one each.
pub open spec fn two_bytes_lead(line: Seq<char>) -> bool {
    ||| (line.len() >= 1 && utf8_width(line[0]) == 2)
    ||| (line.len() >= 2 && utf8_width(line[0]) == 1 && utf8_width(line[1]) == 1)
}

/// The characters of `line` after its first two bytes.
pub open spec fn after_two_bytes(line: Seq<char>) -> Seq<char> {
    if line.len() >= 1 && utf8_width(line[0]) == 2 {
        line.skip(1)
    } else {
        line.skip(2)
    }
}

/// The part of a `-- Name:` line after its first two bytes, trimmed.
pub open spec fn meta_text(line: Seq<char>) -> Seq<char> {
    trim(after_two_bytes(line))
}

/// The lines whose `Meta` can be read: the first two bytes end on a
/// character boundary and, where the rest starts with `Data for`, its ninth
/// character takes one byte.
pub open spec fn meta_line_ok(line: Seq<char>) -> bool {
    &&& two_bytes_lead(line)
    &&& starts_with(meta_text(line), "Data for"@) ==> meta_text(line).len() >= 9 && utf8_width(
        meta_text(line)[8],
    ) == 1
}

/// The part of a `-- Name:` line after `--`, trimmed, and with a leading
/// `Data for ` dropped.
pub open spec fn meta_body(line: Seq<char>) -> Seq<char> {
    let b = meta_text(line);
    if starts_with(b, "Data for"@) {
        b.skip(9)
    } else {
        b
    }
}

/// One `key: value` part applied to what is known so far: `None` where the
/// part has no `:`.  The keys `Name`, `Type`, `Schema` and `Owner` (as
/// pg_dump writes them, or in lower case) are recorded; others are ignored.
pub open spec fn meta_part(m: MetaView, part: Seq<char>) -> Option<MetaView> {
    match find(part, seq![':']) {
        None => None,
        Some(i) => {
            let k = trim(part.take(i));
            let v = trim(part.skip(i + 1));
            Some(
                if k == "Name"@ {
                    MetaView { name: v, ..m }
                } else if k == "Type"@ {
                    MetaView { ty: type_from_name(v), ..m }
                } else if k == "Schema"@ || k == "schema"@ {
                    MetaView { schema: v, ..m }
                } else if k == "Owner"@ || k == "owner"@ {
                    MetaView { owner: v, ..m }
                } else {
                    m
                },
            )
        },
    }
}

/// The parts applied in order, from the `Meta` that names nothing.
pub open spec fn meta_parts(parts: Seq<Seq<char>>) -> Option<MetaView>
    decreases parts.len(),
{
    if parts.len() == 0 {
        Some(empty_meta())
    } else {
        match meta_parts(parts.drop_last()) {
            None => None,
            Some(m) => meta_part(m, parts.last()),
        }
    }
}

/// What a `-- Name:` line says: its `;`-separated parts applied in order.
pub open spec fn meta_of_line(line: Seq<char>) -> Option<MetaView> {
    meta_parts(split_on(meta_body(line), ';'))
}

/// A line that names an entry's name and kind.
pub open spec fn is_name_line(line: Seq<char>) -> bool {
    starts_with(line, "-- Name:"@) || starts_with(line, "-- Data for Name:"@)
}

/// A line that names an entry's number.
pub open spec fn is_toc_line(line: Seq<char>) -> bool {
    starts_with(line, "-- TOC"@)
}

// ---------------------------------------------------------------------------
// Comment blocks
// ---------------------------------------------------------------------------

/// What the lines of a comment block give, read in order.
pub enum TocScan {
    /// A `-- TOC` line stops the scanner.
    Aborted,
    /// A line cannot be read (`CommentError::Unparsable`).
    Rejected,
    /// The entry number and `Meta` of the block so far.
    Scanned(Option<u32>, MetaView),
}

/// One line of a comment block applied to what is known so far.
pub open spec fn toc_line(e: Option<u32>, m: MetaView, line: Seq<char>) -> TocScan {
    let id = if is_toc_line(line) {
        match entry_id_scan(encode_utf8(line)) {
            EntryIdScan::Aborts => None,
            EntryIdScan::NoNumber => Some(None),
            EntryIdScan::Id(v) => Some(Some(Some(v))),
        }
    } else {
        Some(Some(e))
    };
    match id {
        None => TocScan::Aborted,
        Some(None) => TocScan::Rejected,
        Some(Some(e2)) => if is_name_line(line) {
            match meta_of_line(line) {
                None => TocScan::Rejected,
                Some(m2) => TocScan::Scanned(e2, m2),
            }
        } else {
            TocScan::Scanned(e2, m)
        },
    }
}

/// The lines applied in order; the first line that fails decides.
pub open spec fn toc_lines(lines: Seq<Seq<char>>) -> TocScan
    decreases lines.len(),
{
    if lines.len() == 0 {
        TocScan::Scanned(None, empty_meta())
    } else {
        match toc_lines(lines.drop_last()) {
            TocScan::Scanned(e, m) => toc_line(e, m, lines.last()),
            other => other,
        }
    }
}

/// What a comment block's text gives: its `'\n'`-separated lines read in
/// order.
pub open spec fn toc_scan(text: Seq<char>) -> TocScan {
    toc_lines(split_on(text, '\n'))
}

/// The outcome of reading a comment block from `text`.
pub open spec fn comment_parse(text: Seq<char>, res: Result<CommentBlockView, CommentError>) -> bool {
    match toc_scan(text) {
        TocScan::Aborted => res == Err::<CommentBlockView, CommentError>(CommentError::MalformedToc),
        TocScan::Rejected => res == Err::<CommentBlockView, CommentError>(CommentError::Unparsable),
        TocScan::Scanned(e, m) => res == Ok::<CommentBlockView, CommentError>(
            CommentBlockView { entry_id: e, meta: m, lineno: 0 },
        ),
    }
}

/// How a `Meta` is shown.
pub open spec fn meta_display(m: MetaView) -> Seq<char> {
    "Name: "@ + m.name + "; Type: "@ + type_display(m.ty) + "; Schema: "@ + m.schema
        + ", Owner: "@ + m.owner
}

/// How a comment block is shown.
pub open spec fn comment_display(c: CommentBlockView) -> Seq<char> {
    "Line#: "@ + decimal(c.lineno as nat) + ", ID: "@ + (match c.entry_id {
        Some(id) => decimal(id as nat),
        None => "--"@,
    }) + ", Meta("@ + meta_display(c.meta) + ")"@
}

impl Meta {
    /// How this `Meta` is shown.
    pub fn to_chars(&self) -> (res: Vec<char>)
        ensures
            res@ == meta_display(self@),
    {
        let mut v: Vec<char> = Vec::new();
        extend_str(&mut v, "Name: ");
        extend_str(&mut v, self.name.as_str());
        extend_str(&mut v, "; Type: ");
        let t = self.ty.name_chars();
        extend_chars(&mut v, &t);
        extend_str(&mut v, "; Schema: ");
        extend_str(&mut v, self.schema.as_str());
        extend_str(&mut v, ", Owner: ");
        extend_str(&mut v, self.owner.as_str());
        v
    }

    /// How this `Meta` is shown.
    pub fn to_string(&self) -> (res: String)
        ensures
            res@ == meta_display(self@),
    {
        let v = self.to_chars();
        string_of(&v)
    }
}

impl CommentBlock {
    /// Whether the block names an entry number.
    pub fn is_toc(&self) -> (res: bool)
        ensures
            res == (self@.entry_id is Some),
    {
        self.entry_id.is_some()
    }

    /// Reads a comment block from its text.
    pub fn parse(s: &str) -> (res: Result<CommentBlock, CommentError>)
        ensures
            comment_parse(
                s@,
                match res {
                    Ok(c) => Ok(c@),
                    Err(e) => Err(e),
                },
            ),
    {
        let v = chars_of(s);
        Self::parse_chars(&v)
    }

    /// Reads a comment block from its characters.
    pub fn parse_chars(s: &[char]) -> (res: Result<CommentBlock, CommentError>)
        ensures
            comment_parse(
                s@,
                match res {
                    Ok(c) => Ok(c@),
                    Err(e) => Err(e),
                },
            ),
    {
        let lines = split_chars(s, '\n');
        let toc = chars_of("-- TOC");
        let name1 = chars_of("-- Name:");
        let name2 = chars_of("-- Data for Name:");
        let mut comment = Self::default();
        let mut i: usize = 0;
        assert(lines.deep_view().take(0) == Seq::<Seq<char>>::empty());
        while i < lines.len()
            invariant
                i <= lines@.len(),
                lines.deep_view() == split_on(s@, '\n'),
                toc@ == "-- TOC"@,
                name1@ == "-- Name:"@,
                name2@ == "-- Data for Name:"@,
                comment.lineno == 0,
                toc_lines(lines.deep_view().take(i as int)) == TocScan::Scanned(
                    comment.entry_id,
                    comment.meta@,
                ),
            decreases lines.len() - i,
        {
            let line = &lines[i];
            let ghost lv = lines.deep_view()[i as int];
            assert(line@ =~= lv);
            assert(lines.deep_view().take(i + 1).drop_last() == lines.deep_view().take(i as int));
            assert(lines.deep_view().take(i + 1).last() == lv);
            if has_prefix(line, &toc) {
                let ls = string_of(line);
                if toc_entry_id_aborts(ls.as_str()) {
                    proof {
                        lemma_toc_lines_stop(lines.deep_view(), i + 1);
                    }
                    return Err(CommentError::MalformedToc);
                }
                match Self::parse_toc_entry_id(ls.as_str()) {
                    None => {
                        proof {
                            lemma_toc_lines_stop(lines.deep_view(), i + 1);
                        }
                        return Err(CommentError::Unparsable);
                    },
                    Some(id) => {
                        comment.entry_id = Some(id);
                    },
                }
            }
            if has_prefix(line, &name1) || has_prefix(line, &name2) {
                proof {
                    lemma_name_line_ok(line@);
                }
                match Self::parse_toc_meta_str(line) {
                    Some(m) => {
                        comment.meta = m;
                    },
                    None => {
                        proof {
                            lemma_toc_lines_stop(lines.deep_view(), i + 1);
                        }
                        return Err(CommentError::Unparsable);
                    },
                }
            }
            i = i + 1;
        }
        assert(lines.deep_view().take(lines@.len() as int) == lines.deep_view());
        Ok(comment)
    }

    /// Reads the entry number of a `-- TOC` line: `None` where no digit
    /// follows the tokens.  The line must not stop the scanner.
    pub fn parse_toc_entry_id(toc_str: &str) -> (res: Option<u32>)
        requires
            !(entry_id_scan(encode_utf8(toc_str@)) is Aborts),
        ensures
            match entry_id_scan(encode_utf8(toc_str@)) {
                EntryIdScan::Id(v) => res == Some(v),
                _ => res is None,
            },
    {
        match scan_entry_id(toc_str) {
            EntryIdScan::Id(v) => Some(v),
            _ => None,
        }
    }

    /// Reads a comment block from its text: `None` where a line cannot be
    /// read.  No `-- TOC` line of the block may stop the scanner.
    pub fn parse_toc(lines: &str) -> (res: Option<Self>)
        requires
            !(toc_scan(lines@) is Aborted),
        ensures
            match toc_scan(lines@) {
                TocScan::Scanned(e, m) => res matches Some(c) && c@ == (CommentBlockView {
                    entry_id: e,
                    meta: m,
                    lineno: 0,
                }),
                _ => res is None,
            },
    {
        match Self::parse(lines) {
            Ok(c) => Some(c),
            Err(_) => None,
        }
    }

    /// Reads what a `-- Name:` or `-- Data for Name:` line says: the text
    /// after its first two bytes, trimmed, without a leading `Data for `,
    /// split on `;` into `key: value` parts.
    pub fn parse_toc_meta_str(meta_str: &[char]) -> (res: Option<Meta>)
        requires
            meta_line_ok(meta_str@),
        ensures
            match meta_of_line(meta_str@) {
                Some(m) => res matches Some(r) && r@ == m,
                None => res is None,
            },
    {
        let after = if meta_str.len() >= 1 && char_width(meta_str[0]) == 2 {
            slice_chars(meta_str, 1, meta_str.len())
        } else {
            slice_chars(meta_str, 2, meta_str.len())
        };
        assert(after@ == after_two_bytes(meta_str@));
        let mut body = trim_chars(&after);
        if has_prefix(&body, &chars_of("Data for")) {
            body = slice_chars(&body, 9, body.len());
        }
        assert(body@ == meta_body(meta_str@));
        let parts = split_chars(&body, ';');
        let mut meta = Meta::default();
        let mut i: usize = 0;
        assert(parts.deep_view().take(0) == Seq::<Seq<char>>::empty());
        while i < parts.len()
            invariant
                i <= parts@.len(),
                parts.deep_view() == split_on(body@, ';'),
                body@ == meta_body(meta_str@),
                meta_parts(parts.deep_view().take(i as int)) == Some(meta@),
            decreases parts.len() - i,
        {
            let part = &parts[i];
            let ghost pv = parts.deep_view()[i as int];
            assert(part@ =~= pv);
            assert(parts.deep_view().take(i + 1).drop_last() == parts.deep_view().take(i as int));
            assert(parts.deep_view().take(i + 1).last() == pv);
            let colon = vec![':'];
            assert(colon@ =~= seq![':']);
            match find_chars(part, &colon) {
                None => {
                    proof {
                        lemma_meta_parts_stop(parts.deep_view(), i + 1);
                    }
                    return None;
                },
                Some(c) => {
                    proof {
                        lemma_find_bounds(part@, seq![':']);
                    }
                    assert(c < part@.len());
                    assert(c + 1 <= part.len());
                    let kr = slice_chars(part, 0, c);
                    let k = trim_chars(&kr);
                    let vr = slice_chars(part, c + 1, part.len());
                    let v = trim_chars(&vr);
                    assert(kr@ == part@.take(c as int));
                    assert(vr@ == part@.skip(c + 1));
                    if same_chars(&k, &chars_of("Name")) {
                        meta.name = string_of(&v);
                    } else if same_chars(&k, &chars_of("Type")) {
                        let vs = string_of(&v);
                        meta.ty = StatementType::from_name(vs.as_str());
                    } else if same_chars(&k, &chars_of("Schema")) || same_chars(
                        &k,
                        &chars_of("schema"),
                    ) {
                        meta.schema = string_of(&v);
                    } else if same_chars(&k, &chars_of("Owner")) || same_chars(
                        &k,
                        &chars_of("owner"),
                    ) {
                        meta.owner = string_of(&v);
                    }
                },
            }
            i = i + 1;
        }
        assert(parts.deep_view().take(parts@.len() as int) == parts.deep_view());
        Some(meta)
    }

    /// How this block is shown.
    pub fn to_string(&self) -> (res: String)
        ensures
            res@ == comment_display(self@),
    {
        let mut v: Vec<char> = Vec::new();
        extend_str(&mut v, "Line#: ");
        let d = decimal_chars(self.lineno as u64);
        extend_chars(&mut v, &d);
        extend_str(&mut v, ", ID: ");
        match self.entry_id {
            Some(id) => {
                let e = decimal_chars(id as u64);
                extend_chars(&mut v, &e);
            },
            None => {
                extend_str(&mut v, "--");
            },
        }
        extend_str(&mut v, ", Meta(");
        let m = self.meta.to_chars();
        extend_chars(&mut v, &m);
        extend_str(&mut v, ")");
        string_of(&v)
    }
}

impl std::str::FromStr for CommentBlock {
    type Err = CommentError;

    fn from_str(s: &str) -> (res: Result<Self, Self::Err>)
        ensures
            comment_parse(
                s@,
                match res {
                    Ok(c) => Ok(c@),
                    Err(e) => Err(e),
                },
            ),
    {
        CommentBlock::parse(s)
    }
}

/// Once a line of a comment block fails, the later lines change nothing.
proof fn lemma_toc_lines_stop(lines: Seq<Seq<char>>, j: int)
    requires
        0 <= j <= lines.len(),
        !(toc_lines(lines.take(j)) is Scanned),
    ensures
        toc_lines(lines) == toc_lines(lines.take(j)),
    decreases lines.len(),
{
    if j < lines.len() {
        assert(lines.drop_last().take(j) == lines.take(j));
        lemma_toc_lines_stop(lines.drop_last(), j);
    } else {
        assert(lines.take(j) == lines);
    }
}

/// Once a part of a `-- Name:` line fails, the later parts change nothing.
proof fn lemma_meta_parts_stop(parts: Seq<Seq<char>>, j: int)
    requires
        0 <= j <= parts.len(),
        meta_parts(parts.take(j)) is None,
    ensures
        meta_parts(parts) is None,
    decreases parts.len(),
{
    if j < parts.len() {
        assert(parts.drop_last().take(j) == parts.take(j));
        lemma_meta_parts_stop(parts.drop_last(), j);
    } else {
        assert(parts.take(j) == parts);
    }
}

/// Trimming the end keeps every character up to a non-white-space one.
proof fn lemma_trim_end_keeps(y: Seq<char>, k: int)
    requires
        0 <= k < y.len(),
        !is_ws(y[k]),
    ensures
        k < trim_end(y).len() <= y.len(),
        trim_end(y) == y.take(trim_end(y).len() as int),
    decreases y.len(),
{
    lemma_trim_end_is_prefix(y);
    if y.len() > 0 && is_ws(y.last()) {
        lemma_trim_end_keeps(y.drop_last(), k);
    }
}

/// A `-- Name:` or `-- Data for Name:` line can be read.
proof fn lemma_name_line_ok(line: Seq<char>)
    requires
        is_name_line(line),
    ensures
        meta_line_ok(line),
{
    reveal_strlit("-- Name:");
    reveal_strlit("-- Data for Name:");
    reveal_strlit("Data for");
    if starts_with(line, "-- Name:"@) {
        assert(line.subrange(0, 8) == "-- Name:"@);
        assert(line.subrange(0, 8)[2] == line[2]);
        assert(line.subrange(0, 8)[1] == line[1]);
        assert(line.subrange(0, 8)[0] == line[0]);
    } else {
        assert(line.subrange(0, 17) == "-- Data for Name:"@);
        assert(line.subrange(0, 17)[2] == line[2]);
        assert(line.subrange(0, 17)[1] == line[1]);
        assert(line.subrange(0, 17)[0] == line[0]);
    }
    assert(line[0] == '-' && line[1] == '-' && line[2] == ' ');
    assert(two_bytes_lead(line));
    let s2 = line.skip(2);
    assert(after_two_bytes(line) == s2);
    let y = line.skip(3);
    assert(s2.drop_first() =~= y);
    assert(is_ws(s2[0]));
    if starts_with(line, "-- Name:"@) {
        assert(line.subrange(0, 8) == "-- Name:"@);
        assert(line.subrange(0, 8)[3] == y[0]);
        assert(line.subrange(0, 8)[7] == y[4]);
        assert(y[4] == ':');
        assert(!is_ws(y[0]));
        lemma_trim_end_keeps(y, 4);
        assert(trim_start(s2) == trim_start(s2.drop_first()));
        assert(trim_start(s2) == y);
        let t = trim_end(y);
        assert(y[0] == 'N');
        assert(y.take(t.len() as int)[0] == y[0]);
        assert(t[0] == 'N');
        if t.len() >= 8 {
            assert(t.subrange(0, 8)[0] == t[0]);
            assert(t.subrange(0, 8) != "Data for"@);
        }
        assert(!starts_with(t, "Data for"@));
    } else {
        assert(starts_with(line, "-- Data for Name:"@));
        assert(line.subrange(0, 17) == "-- Data for Name:"@);
        assert(line.subrange(0, 17)[3] == y[0]);
        assert(line.subrange(0, 17)[16] == y[13]);
        assert(line.subrange(0, 17)[11] == y[8]);
        assert(y[13] == ':');
        assert(!is_ws(y[0]));
        lemma_trim_end_keeps(y, 13);
        assert(trim_start(s2) == trim_start(s2.drop_first()));
        assert(trim_start(s2) == y);
        let t = trim_end(y);
        assert(t.len() >= 9);
        assert(y.take(t.len() as int)[8] == y[8]);
        assert(t[8] == y[8]);
        assert(t[8] == ' ');
    }
}

/// No `key: value` part names the kind of a psql command.
proof fn lemma_meta_parts_kind(parts: Seq<Seq<char>>)
    ensures
        meta_parts(parts) matches Some(m) ==> m.ty != StatementType::Command,
    decreases parts.len(),
{
    if parts.len() > 0 {
        lemma_meta_parts_kind(parts.drop_last());
    }
}

/// No comment block names the kind of a psql command.
pub proof fn lemma_toc_scan_kind(text: Seq<char>)
    ensures
        toc_scan(text) matches TocScan::Scanned(e, m) ==> m.ty != StatementType::Command,
{
    lemma_toc_lines_kind(split_on(text, '\n'));
}

proof fn lemma_toc_lines_kind(lines: Seq<Seq<char>>)
    ensures
        toc_lines(lines) matches TocScan::Scanned(e, m) ==> m.ty != StatementType::Command,
    decreases lines.len(),
{
    if lines.len() > 0 {
        lemma_toc_lines_kind(lines.drop_last());
        lemma_meta_parts_kind(split_on(meta_body(lines.last()), ';'));
    }
}

/// `find_from` stops at the first occurrence at or after `i`.
proof fn lemma_find_from_at(s: Seq<char>, p: Seq<char>, i: int, j: int)
    requires
        0 <= i <= j,
        occurs_at(s, p, j),
        forall|q: int| i <= q < j ==> !#[trigger] occurs_at(s, p, q),
    ensures
        find_from(s, p, i) == Some(j),
    decreases j - i,
{
    if i < j {
        lemma_find_from_at(s, p, i + 1, j);
    }
}

/// A `key: value` part whose key has no `:`: its value, trimmed, becomes
/// the name for the key `Name`, the schema for `Schema` (or `schema`), the
/// owner for `Owner` (or `owner`), and for `Type` the kind that
/// `StatementType::from_str` gives for it; whatever the key is, trimmed;
/// nothing else changes, and another key changes nothing.  In particular a
/// `Type` value that is, once trimmed, the name a kind is shown as gives
/// that kind (for every kind but `Constraint` and `Command`, which are
/// shown as `Unknown`).
pub proof fn lemma_meta_part_law(m: MetaView, k: Seq<char>, v: Seq<char>, t: StatementType)
    requires
        nowhere(k, seq![':']),
    ensures
        ({
            let part = k + seq![':'] + v;
            let key = trim(k);
            let val = trim(v);
            &&& key == "Name"@ ==> meta_part(m, part) == Some(MetaView { name: val, ..m })
            &&& key == "Type"@ ==> meta_part(m, part) == Some(
                MetaView { ty: type_from_name(val), ..m },
            )
            &&& key == "Type"@ && val == type_display(t) && t != StatementType::Constraint && t
                != StatementType::Command ==> meta_part(m, part) == Some(MetaView { ty: t, ..m })
            &&& (key == "Schema"@ || key == "schema"@) ==> meta_part(m, part) == Some(
                MetaView { schema: val, ..m },
            )
            &&& (key == "Owner"@ || key == "owner"@) ==> meta_part(m, part) == Some(
                MetaView { owner: val, ..m },
            )
            &&& key != "Name"@ && key != "Type"@ && key != "Schema"@ && key != "schema"@ && key
                != "Owner"@ && key != "owner"@ ==> meta_part(m, part) == Some(m)
        }),
{
    let p = seq![':'];
    let s = k + p + v;
    let n = k.len() as int;
    assert(s.subrange(n, n + 1) =~= p);
    assert forall|q: int| 0 <= q < n implies !#[trigger] occurs_at(s, p, q) by {
        assert(!occurs_at(k, p, q));
        assert(s.subrange(q, q + 1) =~= k.subrange(q, q + 1));
    }
    lemma_find_from_at(s, p, 0, n);
    assert(s.take(n) =~= k);
    assert(s.skip(n + 1) =~= v);
    reveal_strlit("Name");
    reveal_strlit("Type");
    reveal_strlit("Schema");
    reveal_strlit("schema");
    reveal_strlit("Owner");
    reveal_strlit("owner");
    assert("Name"@.len() == 4 && "Type"@.len() == 4 && "Name"@[0] != "Type"@[0]);
    assert("Schema"@.len() == 6 && "schema"@.len() == 6 && "Schema"@[0] != "schema"@[0]);
    assert("Owner"@.len() == 5 && "owner"@.len() == 5 && "Owner"@[0] != "owner"@[0]);
    lemma_type_name_roundtrip(t);
}

/// A part without a `:` cannot be read, and one with a `:` can.
pub proof fn lemma_meta_part_colon(m: MetaView, part: Seq<char>)
    ensures
        meta_part(m, part) is None <==> nowhere(part, seq![':']),
{
    let p = seq![':'];
    lemma_find_bounds(part, p);
    lemma_find_from_first(part, p, 0);
}

} // verus!
