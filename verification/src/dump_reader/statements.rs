//! The statements of a dump, and the rewritings applied to them.

use vstd::prelude::*;

use crate::dump_reader::reader::statement_views;
use crate::dump_reader::statement::{sql_view, Statement, StatementType, StatementView};
use crate::text::{
    cat, chars_of, contains, contains_chars, find, find_chars, lemma_find_bounds,
    lemma_find_from_first, lemma_find_none, lemma_nowhere_subrange, lemma_nowhere_trim,
    lemma_replace_same, lemma_split_on_nonempty, nowhere, occurs_at,
    replace, replace_chars, rfind, rfind_chars, slice_chars, split_chars, split_on, string_of,
    trim, trim_chars,
};

verus! {

/// The statements of a dump, in order.
pub struct Statements(Vec<Statement>);

impl View for Statements {
    type V = Seq<StatementView>;

    closed spec fn view(&self) -> Seq<StatementView> {
        statement_views(self.0@)
    }
}

/// The indices of the statements of kind `ty`, in order.
pub open spec fn type_indices(s: Seq<StatementView>, ty: StatementType) -> Seq<usize>
    decreases s.len(),
{
    if s.len() == 0 {
        Seq::<usize>::empty()
    } else {
        let p = type_indices(s.drop_last(), ty);
        if s.last().ty == ty {
            p.push((s.len() - 1) as usize)
        } else {
            p
        }
    }
}

/// The table name of a `CREATE TABLE` statement: its third space-separated
/// word, or its last one where it has fewer.
pub open spec fn table_name_of(sql: Seq<char>) -> Seq<char> {
    let p = split_on(sql, ' ');
    if p.len() >= 3 {
        p[2]
    } else {
        p.last()
    }
}

/// Whether the constraints of a `CREATE TABLE` statement can be split off:
/// where `CONSTRAINT` occurs, a `);` occurs, and the last `);` does not
/// stand before the first `CONSTRAINT`.
pub open spec fn splittable(sql: Seq<char>) -> bool {
    find(sql, "CONSTRAINT"@) matches Some(start) ==> (rfind(sql, ");"@) matches Some(end)
        && start <= end)
}

/// `s` without its last character, if it has one (`String::pop`).
pub open spec fn pop_last(s: Seq<char>) -> Seq<char> {
    if s.len() > 0 {
        s.drop_last()
    } else {
        s
    }
}

/// The constraints of a `CREATE TABLE` statement split off: the statement
/// cut before its first `CONSTRAINT` (trimmed, its last character dropped,
/// and closed by `);`), and the `ALTER TABLE` statement that adds the
/// constraints (the text from the first `CONSTRAINT` to the last `);`,
/// trimmed, with every `CONSTRAINT` made `ADD CONSTRAINT`).  `None` where
/// the statement has no `CONSTRAINT`.
pub open spec fn split_constraints(sql: Seq<char>) -> Option<(Seq<char>, Seq<char>)> {
    match find(sql, "CONSTRAINT"@) {
        None => None,
        Some(start) => {
            let end = rfind(sql, ");"@)->0;
            let constraints = replace(
                trim(sql.subrange(start, end)),
                "CONSTRAINT"@,
                "ADD CONSTRAINT"@,
            );
            let remaining = pop_last(trim(sql.take(start))) + ");"@;
            Some(
                (
                    remaining,
                    "ALTER TABLE "@ + table_name_of(remaining) + " "@ + constraints + ";"@,
                ),
            )
        },
    }
}

/// A statement after its constraints were split off: only a `TABLE`
/// statement with a `CONSTRAINT` changes.
pub open spec fn without_constraints(s: StatementView) -> StatementView {
    if s.ty == StatementType::Table {
        match split_constraints(s.sql) {
            Some((remaining, _)) => StatementView { sql: remaining, ..s },
            None => s,
        }
    } else {
        s
    }
}

/// The `ALTER TABLE` statements split off the `TABLE` statements, in
/// order; they are of kind `Constraint`.
pub open spec fn constraint_statements(s: Seq<StatementView>) -> Seq<StatementView>
    decreases s.len(),
{
    if s.len() == 0 {
        Seq::<StatementView>::empty()
    } else {
        let p = constraint_statements(s.drop_last());
        if s.last().ty == StatementType::Table {
            match split_constraints(s.last().sql) {
                Some((_, alter)) => p.push(
                    StatementView { ty: StatementType::Constraint, ..sql_view(alter) },
                ),
                None => p,
            }
        } else {
            p
        }
    }
}

/// A statement after replacing `f` by `r`: only one that contains `f`
/// changes.
pub open spec fn replaced(s: StatementView, f: Seq<char>, r: Seq<char>) -> StatementView {
    if contains(s.sql, f) {
        StatementView { sql: replace(s.sql, f, r), ..s }
    } else {
        s
    }
}

/// The number of statements that contain `f`.
pub open spec fn count_containing(s: Seq<StatementView>, f: Seq<char>) -> nat
    decreases s.len(),
{
    if s.len() == 0 {
        0
    } else {
        count_containing(s.drop_last(), f) + if contains(s.last().sql, f) {
            1nat
        } else {
            0nat
        }
    }
}

proof fn lemma_count_containing_bound(s: Seq<StatementView>, f: Seq<char>)
    ensures
        count_containing(s, f) <= s.len(),
    decreases s.len(),
{
    if s.len() > 0 {
        lemma_count_containing_bound(s.drop_last(), f);
    }
}

/// The table name of a `CREATE TABLE` statement.
pub fn extract_table_name_from_create_table(sql: &str) -> (res: Option<String>)
    ensures
        res matches Some(name) && name@ == table_name_of(sql@),
{
    let v = chars_of(sql);
    let name = table_name_chars(&v);
    Some(string_of(&name))
}

/// The table name of a `CREATE TABLE` statement.
fn table_name_chars(sql: &[char]) -> (res: Vec<char>)
    ensures
        res@ == table_name_of(sql@),
{
    let parts = split_chars(sql, ' ');
    proof {
        lemma_split_on_nonempty(sql@, ' ');
    }
    let k = if parts.len() >= 3 {
        2
    } else {
        parts.len() - 1
    };
    let part = &parts[k];
    assert(part@ =~= parts.deep_view()[k as int]);
    slice_chars(part, 0, part.len())
}

/// Splits the constraints off one `TABLE` statement's text.
fn split_constraints_chars(sql: &[char]) -> (res: Option<(Vec<char>, Vec<char>)>)
    requires
        splittable(sql@),
    ensures
        match split_constraints(sql@) {
            Some((r, a)) => res matches Some((x, y)) && x@ == r && y@ == a,
            None => res is None,
        },
{
    let keyword = chars_of("CONSTRAINT");
    let start = match find_chars(sql, &keyword) {
        None => {
            return None;
        },
        Some(i) => i,
    };
    let end = match rfind_chars(sql, &chars_of(");")) {
        None => {
            return None;
        },
        Some(j) => j,
    };
    let middle = slice_chars(sql, start, end);
    let trimmed = trim_chars(&middle);
    let constraints = replace_chars(&trimmed, &keyword, &chars_of("ADD CONSTRAINT"));
    let head = slice_chars(sql, 0, start);
    let mut remaining = trim_chars(&head);
    if remaining.len() > 0 {
        remaining.pop();
    }
    let remaining = cat(&remaining, &chars_of(");"));
    assert(sql@.take(start as int) == sql@.subrange(0, start as int));
    let name = table_name_chars(&remaining);
    let alter = cat(&chars_of("ALTER TABLE "), &name);
    let alter = cat(&alter, &chars_of(" "));
    let alter = cat(&alter, &constraints);
    let alter = cat(&alter, &chars_of(";"));
    Some((remaining, alter))
}


// ---------------------------------------------------------------------------
// A second extraction finds nothing
// ---------------------------------------------------------------------------

/// The statement text left after splitting off the constraints holds no
/// `CONSTRAINT`.
proof fn lemma_remaining_has_no_constraint(sql: Seq<char>)
    requires
        find(sql, "CONSTRAINT"@) is Some,
    ensures
        find((split_constraints(sql)->0).0, "CONSTRAINT"@) is None,
{
    let kw = "CONSTRAINT"@;
    reveal_strlit("CONSTRAINT");
    reveal_strlit(");");
    let start = find(sql, kw)->0;
    lemma_find_from_first(sql, kw, 0);
    lemma_find_bounds(sql, kw);
    // No `CONSTRAINT` before its first occurrence.
    lemma_nowhere_subrange(sql, kw, 0, start);
    assert(sql.take(start) =~= sql.subrange(0, start));
    let head = trim(sql.take(start));
    lemma_nowhere_trim(sql.take(start), kw);
    let z = pop_last(head);
    if head.len() > 0 {
        lemma_nowhere_subrange(head, kw, 0, head.len() - 1);
        assert(head.drop_last() =~= head.subrange(0, head.len() - 1));
    }
    let w = z + ");"@;
    assert forall|k: int| !#[trigger] occurs_at(w, kw, k) by {
        if occurs_at(w, kw, k) {
            if k + kw.len() <= z.len() {
                assert(w.subrange(k, k + kw.len()) =~= z.subrange(k, k + kw.len()));
                assert(occurs_at(z, kw, k));
            } else {
                let m = z.len() - k;
                assert(0 <= m < kw.len());
                assert(w[z.len() as int] == ')');
                assert(w.subrange(k, k + kw.len())[m] == w[z.len() as int]);
            }
        }
    }
    lemma_find_none(w, kw, 0);
}

/// Splitting the constraints off again changes nothing and gives no more
/// `ALTER TABLE` statements: every `TABLE` statement is left without
/// `CONSTRAINT`.
pub proof fn lemma_extract_idempotent(s: Seq<StatementView>)
    requires
        forall|i: int|
            0 <= i < s.len() && #[trigger] s[i].ty == StatementType::Table ==> splittable(s[i].sql),
    ensures
        ({
            let t = s.map_values(|x: StatementView| without_constraints(x));
            &&& forall|i: int|
                0 <= i < t.len() && #[trigger] t[i].ty == StatementType::Table ==> splittable(
                    t[i].sql,
                )
            &&& t.map_values(|x: StatementView| without_constraints(x)) == t
            &&& constraint_statements(t).len() == 0
        }),
    decreases s.len(),
{
    let t = s.map_values(|x: StatementView| without_constraints(x));
    assert forall|i: int| 0 <= i < t.len() implies without_constraints(#[trigger] t[i]) == t[i]
        && (t[i].ty == StatementType::Table ==> find(t[i].sql, "CONSTRAINT"@) is None) by {
        let x = s[i];
        if x.ty == StatementType::Table {
            if find(x.sql, "CONSTRAINT"@) is Some {
                lemma_remaining_has_no_constraint(x.sql);
            }
        }
    }
    assert(t.map_values(|x: StatementView| without_constraints(x)) =~= t);
    if s.len() > 0 {
        lemma_extract_idempotent(s.drop_last());
        assert(s.drop_last().map_values(|x: StatementView| without_constraints(x)) =~= t.drop_last());
        assert(t.last() == t[t.len() - 1]);
    }
}

/// The indices of the statements of kind `ty` are exactly those of the
/// statements of that kind, in increasing order.
pub proof fn lemma_type_indices(s: Seq<StatementView>, ty: StatementType)
    requires
        s.len() <= usize::MAX,
    ensures
        forall|k: int|
            0 <= k < type_indices(s, ty).len() ==> #[trigger] type_indices(s, ty)[k] < s.len()
                && s[type_indices(s, ty)[k] as int].ty == ty,
        forall|k: int, l: int|
            0 <= k < l < type_indices(s, ty).len() ==> #[trigger] type_indices(s, ty)[k]
                < #[trigger] type_indices(s, ty)[l],
        forall|i: int|
            0 <= i < s.len() && #[trigger] s[i].ty == ty ==> type_indices(s, ty).contains(
                i as usize,
            ),
    decreases s.len(),
{
    if s.len() > 0 {
        let t = s.drop_last();
        lemma_type_indices(t, ty);
        let p = type_indices(t, ty);
        assert forall|i: int| 0 <= i < s.len() && #[trigger] s[i].ty == ty implies type_indices(
            s,
            ty,
        ).contains(i as usize) by {
            if i < t.len() {
                assert(t[i] == s[i]);
                let k = choose|k: int| 0 <= k < p.len() && p[k] == i as usize;
                assert(type_indices(s, ty)[k] == i as usize);
            } else {
                assert(type_indices(s, ty).last() == i as usize);
            }
        }
        assert forall|k: int|
            0 <= k < type_indices(s, ty).len() implies #[trigger] type_indices(s, ty)[k] < s.len()
            && s[type_indices(s, ty)[k] as int].ty == ty by {
            if k < p.len() {
                assert(type_indices(s, ty)[k] == p[k]);
                assert(t[p[k] as int] == s[p[k] as int]);
            }
        }
    }
}

/// Replacing a text by itself changes no statement.
pub proof fn lemma_replace_all_same(s: Seq<StatementView>, f: Seq<char>)
    ensures
        s.map_values(|x: StatementView| replaced(x, f, f)) == s,
{
    assert forall|i: int| 0 <= i < s.len() implies replaced(s[i], f, f) == s[i] by {
        lemma_replace_same(s[i].sql, f);
    }
    assert(s.map_values(|x: StatementView| replaced(x, f, f)) =~= s);
}

/// Replacing `f` by `r` throughout: every statement whose text contains
/// `f` gets the text `str::replace` makes of it, with its other fields
/// kept; every other statement stays as it was; and the count is the
/// number of statements whose text contains `f`.
pub proof fn lemma_replace_all_law(s: Seq<StatementView>, f: Seq<char>, r: Seq<char>)
    ensures
        ({
            let t = s.map_values(|x: StatementView| replaced(x, f, r));
            &&& t.len() == s.len()
            &&& forall|i: int|
                0 <= i < s.len() && contains(s[i].sql, f) ==> #[trigger] t[i] == (StatementView {
                    sql: replace(s[i].sql, f, r),
                    ..s[i]
                })
            &&& forall|i: int| 0 <= i < s.len() && !contains(s[i].sql, f) ==> #[trigger] t[i] == s[i]
        }),
        count_containing(s, f) == s.filter(|x: StatementView| contains(x.sql, f)).len(),
    decreases s.len(),
{
    if s.len() > 0 {
        lemma_replace_all_law(s.drop_last(), f, r);
        reveal(Seq::filter);
    } else {
        reveal(Seq::filter);
    }
}

/// Splitting off the constraints of a `TABLE` statement whose text has a
/// `CONSTRAINT`: the statement keeps everything before the first
/// `CONSTRAINT`, trimmed, but for its one last character, and is closed by
/// `);`; its other fields are kept.  A statement of another kind, or
/// without a `CONSTRAINT`, stays as it was.
pub proof fn lemma_constraints_cut(s: StatementView)
    ensures
        ({
            let t = without_constraints(s);
            let h = match find(s.sql, "CONSTRAINT"@) {
                Some(start) => trim(s.sql.take(start)),
                None => s.sql,
            };
            let k = if h.len() > 0 {
                h.len() - 1
            } else {
                0
            };
            &&& s.ty == StatementType::Table && find(s.sql, "CONSTRAINT"@) is Some ==> {
                &&& t.sql.len() == k + 2
                &&& t.sql.take(k) == h.take(k)
                &&& t.sql.skip(k) == ");"@
                &&& t == StatementView { sql: t.sql, ..s }
            }
            &&& s.ty != StatementType::Table || find(s.sql, "CONSTRAINT"@) is None ==> t == s
        }),
{
    reveal_strlit(");");
    if s.ty == StatementType::Table && find(s.sql, "CONSTRAINT"@) is Some {
        let start = find(s.sql, "CONSTRAINT"@)->0;
        let h = trim(s.sql.take(start));
        let k = if h.len() > 0 {
            h.len() - 1
        } else {
            0
        };
        let t = pop_last(h) + ");"@;
        assert(pop_last(h).len() == k);
        assert(t.take(k) =~= pop_last(h));
        assert(pop_last(h) =~= h.take(k));
        assert(t.skip(k) =~= ");"@);
    }
}

impl Statements {
    /// The statements `statements`, in order.
    pub fn wrap(statements: Vec<Statement>) -> (res: Self)
        ensures
            res@ == statement_views(statements@),
    {
        Statements(statements)
    }

    /// The number of statements.
    pub fn len(&self) -> (res: usize)
        ensures
            res == self@.len(),
    {
        self.0.len()
    }

    /// The statement at index `i`.
    pub fn get(&self, i: usize) -> (res: &Statement)
        requires
            i < self@.len(),
        ensures
            res@ == self@[i as int],
    {
        &self.0[i]
    }

    /// The indices of the statements of kind `ty`, in order.
    pub fn filter_by_type_mut(&mut self, ty: StatementType) -> (res: Vec<usize>)
        ensures
            final(self)@ == old(self)@,
            res@ == type_indices(old(self)@, ty),
    {
        let mut res: Vec<usize> = Vec::new();
        let mut i: usize = 0;
        let ghost s = self@;
        assert(s.take(0) =~= Seq::<StatementView>::empty());
        while i < self.0.len()
            invariant
                i <= self.0@.len(),
                s == self@,
                s == old(self)@,
                s.len() == self.0@.len(),
                res@ == type_indices(s.take(i as int), ty),
            decreases self.0.len() - i,
        {
            assert(s.take(i + 1).drop_last() =~= s.take(i as int));
            assert(s[i as int] == self.0@[i as int]@);
            if self.0[i].ty == ty {
                res.push(i);
            }
            i = i + 1;
        }
        assert(s.take(s.len() as int) =~= s);
        res
    }

    /// Moves the constraints of every `TABLE` statement into an
    /// `ALTER TABLE ... ADD CONSTRAINT ...;` statement of kind `Constraint`,
    /// returned in order; the `TABLE` statements keep the text before their
    /// first `CONSTRAINT`.
    pub fn extract_and_convert_constraints(&mut self) -> (res: Vec<Statement>)
        requires
            forall|i: int|
                0 <= i < old(self)@.len() && #[trigger] old(self)@[i].ty == StatementType::Table
                    ==> splittable(old(self)@[i].sql),
        ensures
            final(self)@ == old(self)@.map_values(|s: StatementView| without_constraints(s)),
            statement_views(res@) == constraint_statements(old(self)@),
    {
        let ghost s0 = self@;
        let mut alter_statements: Vec<Statement> = Vec::new();
        let mut i: usize = 0;
        assert(s0.take(0) =~= Seq::<StatementView>::empty());
        assert(statement_views(alter_statements@) =~= Seq::<StatementView>::empty());
        while i < self.0.len()
            invariant
                i <= self.0@.len(),
                s0 == old(self)@,
                s0.len() == self.0@.len(),
                forall|k: int|
                    0 <= k < s0.len() && #[trigger] s0[k].ty == StatementType::Table
                        ==> splittable(s0[k].sql),
                forall|k: int|
                    0 <= k < i ==> #[trigger] self.0@[k]@ == without_constraints(s0[k]),
                forall|k: int| i <= k < s0.len() ==> #[trigger] self.0@[k]@ == s0[k],
                statement_views(alter_statements@) == constraint_statements(s0.take(i as int)),
            decreases self.0.len() - i,
        {
            assert(s0.take(i + 1).drop_last() =~= s0.take(i as int));
            assert(s0.take(i + 1).last() == s0[i as int]);
            assert(self.0@[i as int]@ == s0[i as int]);
            let ghost before = statement_views(alter_statements@);
            if self.0[i].ty == StatementType::Table {
                let sql = chars_of(self.0[i].sql.as_str());
                match split_constraints_chars(&sql) {
                    Some((remaining, alter)) => {
                        let remaining = string_of(&remaining);
                        self.0[i].set_sql(remaining);
                        let mut alter_statement = Statement::from_sql(string_of(&alter));
                        alter_statement.ty = StatementType::Constraint;
                        alter_statements.push(alter_statement);
                        assert(statement_views(alter_statements@) =~= before.push(
                            alter_statements@.last()@,
                        ));
                    },
                    None => {},
                }
            }
            i = i + 1;
        }
        assert(s0.take(s0.len() as int) =~= s0);
        assert(self@ =~= s0.map_values(|s: StatementView| without_constraints(s)));
        alter_statements
    }

    /// Appends `statements`, leaving it empty.
    pub fn append(&mut self, statements: &mut Vec<Statement>)
        ensures
            final(self)@ == old(self)@ + statement_views(old(statements)@),
            final(statements)@.len() == 0,
    {
        self.0.append(statements);
        assert(self@ =~= old(self)@ + statement_views(old(statements)@));
    }

    /// Replaces `filter` by `replacement` in every statement that contains
    /// it; returns the number of such statements.
    pub fn replace_all(&mut self, filter: &str, replacement: &str) -> (res: usize)
        ensures
            final(self)@ == old(self)@.map_values(
                |s: StatementView| replaced(s, filter@, replacement@),
            ),
            res == count_containing(old(self)@, filter@),
    {
        let f = chars_of(filter);
        let r = chars_of(replacement);
        let ghost s0 = self@;
        let mut num_replaced: usize = 0;
        let mut i: usize = 0;
        assert(s0.take(0) =~= Seq::<StatementView>::empty());
        while i < self.0.len()
            invariant
                i <= self.0@.len(),
                s0 == old(self)@,
                s0.len() == self.0@.len(),
                f@ == filter@,
                r@ == replacement@,
                forall|k: int|
                    0 <= k < i ==> #[trigger] self.0@[k]@ == replaced(s0[k], f@, r@),
                forall|k: int| i <= k < s0.len() ==> #[trigger] self.0@[k]@ == s0[k],
                num_replaced == count_containing(s0.take(i as int), f@),
            decreases self.0.len() - i,
        {
            assert(s0.take(i + 1).drop_last() =~= s0.take(i as int));
            assert(s0.take(i + 1).last() == s0[i as int]);
            assert(self.0@[i as int]@ == s0[i as int]);
            proof {
                lemma_count_containing_bound(s0.take(i as int), f@);
            }
            let sql = chars_of(self.0[i].sql.as_str());
            if contains_chars(&sql, &f) {
                num_replaced = num_replaced + 1;
                let new_sql = replace_chars(&sql, &f, &r);
                self.0[i].set_sql(string_of(&new_sql));
            }
            i = i + 1;
        }
        assert(s0.take(s0.len() as int) =~= s0);
        assert(self@ =~= s0.map_values(|s: StatementView| replaced(s, filter@, replacement@)));
        num_replaced
    }

    /// The statements, in order.
    pub fn as_slice(&self) -> (res: &[Statement])
        ensures
            statement_views(res@) == self@,
    {
        self.0.as_slice()
    }

    /// An iterator over the statements, in order.
    pub fn iter(&self) -> (res: std::slice::Iter<'_, Statement>)
        ensures
            statement_views(vstd::std_specs::slice::into_iter_elts(res)) == self@,
    {
        broadcast use vstd::std_specs::slice::axiom_spec_slice_iter;
        let s = self.0.as_slice();
        let it = s.iter();
        assert(vstd::std_specs::slice::into_iter_elts(it) == s@);
        it
    }

    /// The statements, in order.
    pub fn into_vec(self) -> (res: Vec<Statement>)
        ensures
            statement_views(res@) == self@,
    {
        self.0
    }
}

impl IntoIterator for Statements {
    type Item = Statement;
    type IntoIter = std::vec::IntoIter<Statement>;

    fn into_iter(self) -> (res: Self::IntoIter)
        ensures
            statement_views(vstd::std_specs::vec::into_iter_elts(res)) == self@,
    {
        broadcast use vstd::std_specs::vec::axiom_spec_into_iter;
        let v = self.0;
        let it = v.into_iter();
        it
    }
}

} // verus!
