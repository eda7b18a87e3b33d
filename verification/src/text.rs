//! Character-level text utilities with their specifications.
//!
//! Text is handled as sequences of `char`s: the specifications below say what
//! the string operations of the dump reader compute (trimming, prefix tests,
//! searching, replacing, splitting, and the UTF-8 length of a text).

use vstd::prelude::*;
use vstd::utf8::*;

verus! {

// ---------------------------------------------------------------------------
// Specifications
// ---------------------------------------------------------------------------

/// Unicode `White_Space`, the set that `char::is_whitespace` and `str::trim` use.
pub open spec fn is_ws(c: char) -> bool {
    ||| c == '\t'
    ||| c == '\n'
    ||| c == '\u{0B}'
    ||| c == '\u{0C}'
    ||| c == '\r'
    ||| c == ' '
    ||| c == '\u{85}'
    ||| c == '\u{A0}'
    ||| c == '\u{1680}'
    ||| ('\u{2000}' <= c && c <= '\u{200A}')
    ||| c == '\u{2028}'
    ||| c == '\u{2029}'
    ||| c == '\u{202F}'
    ||| c == '\u{205F}'
    ||| c == '\u{3000}'
}

/// `s` without its leading white space.
pub open spec fn trim_start(s: Seq<char>) -> Seq<char>
    decreases s.len(),
{
    if s.len() > 0 && is_ws(s[0]) {
        trim_start(s.drop_first())
    } else {
        s
    }
}

/// `s` without its trailing white space.
pub open spec fn trim_end(s: Seq<char>) -> Seq<char>
    decreases s.len(),
{
    if s.len() > 0 && is_ws(s.last()) {
        trim_end(s.drop_last())
    } else {
        s
    }
}

/// `s` without leading and trailing white space (`str::trim`).
pub open spec fn trim(s: Seq<char>) -> Seq<char> {
    trim_end(trim_start(s))
}

/// `p` occurs in `s` at index `i`.
pub open spec fn occurs_at(s: Seq<char>, p: Seq<char>, i: int) -> bool {
    0 <= i && i + p.len() <= s.len() && s.subrange(i, i + p.len()) == p
}

/// `s` begins with `p`.
pub open spec fn starts_with(s: Seq<char>, p: Seq<char>) -> bool {
    occurs_at(s, p, 0)
}

/// `s` ends with `p`.
pub open spec fn ends_with(s: Seq<char>, p: Seq<char>) -> bool {
    occurs_at(s, p, s.len() - p.len())
}

/// The first index at or after `i` where `p` occurs in `s`.
pub open spec fn find_from(s: Seq<char>, p: Seq<char>, i: int) -> Option<int>
    decreases s.len() + 1 - i,
{
    if i < 0 || i + p.len() > s.len() {
        None
    } else if occurs_at(s, p, i) {
        Some(i)
    } else {
        find_from(s, p, i + 1)
    }
}

/// The first index where `p` occurs in `s` (`str::find`).
pub open spec fn find(s: Seq<char>, p: Seq<char>) -> Option<int> {
    find_from(s, p, 0)
}

/// `p` occurs somewhere in `s` (`str::contains`).
pub open spec fn contains(s: Seq<char>, p: Seq<char>) -> bool {
    find(s, p) is Some
}

/// The last index at or before `i` where `p` occurs in `s`.
pub open spec fn rfind_from(s: Seq<char>, p: Seq<char>, i: int) -> Option<int>
    decreases i + 1,
{
    if i < 0 {
        None
    } else if occurs_at(s, p, i) {
        Some(i)
    } else {
        rfind_from(s, p, i - 1)
    }
}

/// The last index where `p` occurs in `s` (`str::rfind`).
pub open spec fn rfind(s: Seq<char>, p: Seq<char>) -> Option<int> {
    rfind_from(s, p, s.len() - p.len())
}

/// `r` before every character of `s` and once more at its end: what
/// `str::replace` makes of an empty pattern.
pub open spec fn replace_empty(s: Seq<char>, r: Seq<char>) -> Seq<char>
    decreases s.len(),
{
    if s.len() == 0 {
        r
    } else {
        r + seq![s[0]] + replace_empty(s.drop_first(), r)
    }
}

/// Every non-overlapping occurrence of `p` in `s`, taken from the left,
/// replaced by `r` (`str::replace`).
pub open spec fn replace(s: Seq<char>, p: Seq<char>, r: Seq<char>) -> Seq<char>
    decreases s.len(),
{
    if p.len() == 0 {
        replace_empty(s, r)
    } else if s.len() == 0 {
        s
    } else if starts_with(s, p) {
        r + replace(s.skip(p.len() as int), p, r)
    } else {
        seq![s[0]] + replace(s.drop_first(), p, r)
    }
}

/// The pieces of `s` between the occurrences of `c` (`str::split` on a
/// `char`): there is always at least one piece, and pieces may be empty.
pub open spec fn split_on(s: Seq<char>, c: char) -> Seq<Seq<char>>
    decreases s.len(),
{
    if s.len() == 0 {
        seq![Seq::<char>::empty()]
    } else {
        let p = split_on(s.drop_last(), c);
        if s.last() == c {
            p.push(Seq::<char>::empty())
        } else {
            p.update(p.len() - 1, p.last().push(s.last()))
        }
    }
}

/// The pieces joined back together, with `c` between neighbours.
pub open spec fn join_with(pieces: Seq<Seq<char>>, c: char) -> Seq<char>
    decreases pieces.len(),
{
    if pieces.len() == 0 {
        Seq::<char>::empty()
    } else if pieces.len() == 1 {
        pieces[0]
    } else {
        join_with(pieces.drop_last(), c).push(c) + pieces.last()
    }
}

/// The lines of `s` as successive calls of `BufRead::read_line` return them:
/// each ends with its `'\n'`, except a last line that has none.
pub open spec fn split_lines(s: Seq<char>) -> Seq<Seq<char>>
    decreases s.len(),
{
    if s.len() == 0 {
        Seq::<Seq<char>>::empty()
    } else {
        let p = split_lines(s.drop_last());
        if p.len() > 0 && p.last().last() != '\n' {
            p.update(p.len() - 1, p.last().push(s.last()))
        } else {
            p.push(seq![s.last()])
        }
    }
}

/// The concatenation of a sequence of texts.
pub open spec fn concat(pieces: Seq<Seq<char>>) -> Seq<char>
    decreases pieces.len(),
{
    if pieces.len() == 0 {
        Seq::<char>::empty()
    } else {
        concat(pieces.drop_last()) + pieces.last()
    }
}

/// The number of bytes of the UTF-8 encoding of `c`.
pub open spec fn utf8_width(c: char) -> nat {
    let v = c as u32;
    if v <= 0x7F {
        1
    } else if v <= 0x7FF {
        2
    } else if v <= 0xFFFF {
        3
    } else {
        4
    }
}

/// The number of bytes of the UTF-8 encoding of `s`.
pub open spec fn utf8_len(s: Seq<char>) -> nat
    decreases s.len(),
{
    if s.len() == 0 {
        0
    } else {
        utf8_len(s.drop_last()) + utf8_width(s.last())
    }
}

/// The decimal digit for `d < 10`.
pub open spec fn digit_char(d: nat) -> char {
    if d == 0 { '0' }
    else if d == 1 { '1' }
    else if d == 2 { '2' }
    else if d == 3 { '3' }
    else if d == 4 { '4' }
    else if d == 5 { '5' }
    else if d == 6 { '6' }
    else if d == 7 { '7' }
    else if d == 8 { '8' }
    else { '9' }
}

/// The decimal notation of `n`, as `Display` writes an unsigned integer.
pub open spec fn decimal(n: nat) -> Seq<char>
    decreases n,
{
    if n < 10 {
        seq![digit_char(n)]
    } else {
        decimal(n / 10).push(digit_char(n % 10))
    }
}

// ---------------------------------------------------------------------------
// Lemmas
// ---------------------------------------------------------------------------

/// Splitting always gives at least one piece.
pub proof fn lemma_split_on_nonempty(s: Seq<char>, c: char)
    ensures
        split_on(s, c).len() >= 1,
    decreases s.len(),
{
    if s.len() > 0 {
        lemma_split_on_nonempty(s.drop_last(), c);
    }
}

/// Joining the pieces of a split with the separator gives back the text.
pub proof fn lemma_join_split(s: Seq<char>, c: char)
    ensures
        join_with(split_on(s, c), c) == s,
    decreases s.len(),
{
    if s.len() > 0 {
        let t = s.drop_last();
        lemma_join_split(t, c);
        lemma_split_on_nonempty(t, c);
        let p = split_on(t, c);
        if s.last() == c {
            let q = p.push(Seq::<char>::empty());
            assert(q.drop_last() == p);
            assert(join_with(q, c) == join_with(p, c).push(c) + Seq::<char>::empty());
            assert(s == t.push(c));
        } else {
            let q = p.update(p.len() - 1, p.last().push(s.last()));
            if p.len() == 1 {
                assert(join_with(p, c) == p[0]);
                assert(s == t.push(s.last()));
            } else {
                assert(q.drop_last() == p.drop_last());
                assert(join_with(p, c) == join_with(p.drop_last(), c).push(c) + p.last());
                assert(join_with(q, c) == join_with(p.drop_last(), c).push(c) + p.last().push(
                    s.last(),
                ));
                assert(s == t.push(s.last()));
            }
        }
    }
}

/// The lines of a text put back together give the text.
pub proof fn lemma_concat_split_lines(s: Seq<char>)
    ensures
        concat(split_lines(s)) == s,
        forall|i: int| 0 <= i < split_lines(s).len() ==> #[trigger] split_lines(s)[i].len() > 0,
        forall|i: int|
            0 <= i < split_lines(s).len() - 1 ==> #[trigger] split_lines(s)[i].last() == '\n',
    decreases s.len(),
{
    if s.len() > 0 {
        let t = s.drop_last();
        lemma_concat_split_lines(t);
        let p = split_lines(t);
        assert(s == t.push(s.last()));
        if p.len() > 0 && p.last().last() != '\n' {
            let q = p.update(p.len() - 1, p.last().push(s.last()));
            assert(q.drop_last() == p.drop_last());
            assert(concat(p) == concat(p.drop_last()) + p.last());
            assert(concat(q) == concat(q.drop_last()) + q.last());
        } else {
            let q = p.push(seq![s.last()]);
            assert(q.drop_last() == p);
            assert(concat(q) == concat(p) + seq![s.last()]);
        }
    }
}

/// The UTF-8 length of a text that starts with `c`.
pub proof fn lemma_utf8_len_prepend(c: char, t: Seq<char>)
    ensures
        utf8_len(seq![c] + t) == utf8_width(c) + utf8_len(t),
    decreases t.len(),
{
    assert(utf8_len(Seq::<char>::empty()) == 0);
    if t.len() > 0 {
        lemma_utf8_len_prepend(c, t.drop_last());
        assert((seq![c] + t).drop_last() == seq![c] + t.drop_last());
        assert((seq![c] + t).last() == t.last());
    } else {
        assert(seq![c] + t == seq![c]);
        assert(seq![c].drop_last() == Seq::<char>::empty());
    }
}

/// The UTF-8 length of a concatenation.
pub proof fn lemma_utf8_len_append(s: Seq<char>, t: Seq<char>)
    ensures
        utf8_len(s + t) == utf8_len(s) + utf8_len(t),
    decreases t.len(),
{
    if t.len() > 0 {
        lemma_utf8_len_append(s, t.drop_last());
        assert((s + t).drop_last() == s + t.drop_last());
    } else {
        assert(s + t == s);
    }
}

/// `utf8_len` counts the bytes of the UTF-8 encoding, as `str::len` does.
pub proof fn lemma_utf8_len_is_encoding_len(s: Seq<char>)
    ensures
        utf8_len(s) == encode_utf8(s).len(),
    decreases s.len(),
{
    if s.len() > 0 {
        lemma_utf8_len_is_encoding_len(s.drop_first());
        lemma_utf8_len_prepend(s[0], s.drop_first());
        assert(s == seq![s[0]] + s.drop_first());
        char_is_scalar(s[0]);
        let v = s[0] as u32;
        assert(encode_scalar(v).len() == utf8_width(s[0]));
    }
}

/// The UTF-8 length of a concatenation of texts.
pub proof fn lemma_utf8_len_concat_push(pieces: Seq<Seq<char>>, x: Seq<char>)
    ensures
        concat(pieces.push(x)) == concat(pieces) + x,
        utf8_len(concat(pieces.push(x))) == utf8_len(concat(pieces)) + utf8_len(x),
{
    assert(pieces.push(x).drop_last() == pieces);
    lemma_utf8_len_append(concat(pieces), x);
}

/// Pushing a vector of characters onto a vector of such vectors.
proof fn lemma_deep_view_push(
    before: Seq<Seq<char>>,
    after: Seq<Seq<char>>,
    items: Seq<Vec<char>>,
    x: Vec<char>,
)
    requires
        after == Seq::new(items.len(), |i: int| items[i].deep_view()),
        items.len() == before.len() + 1,
        items.last() == x,
        forall|i: int| 0 <= i < before.len() ==> #[trigger] items[i].deep_view() == before[i],
    ensures
        after == before.push(x@),
{
    assert(x.deep_view() =~= x@);
    assert(after =~= before.push(x@));
}

/// Where `find` finds `p`, `p` occurs.
pub proof fn lemma_find_bounds(s: Seq<char>, p: Seq<char>)
    ensures
        find(s, p) matches Some(i) ==> occurs_at(s, p, i),
{
    lemma_find_from_bounds(s, p, 0);
}

proof fn lemma_find_from_bounds(s: Seq<char>, p: Seq<char>, i: int)
    ensures
        find_from(s, p, i) matches Some(j) ==> occurs_at(s, p, j) && i <= j,
    decreases s.len() + 1 - i,
{
    if !(i < 0 || i + p.len() > s.len()) && !occurs_at(s, p, i) {
        lemma_find_from_bounds(s, p, i + 1);
    }
}

/// `p` occurs nowhere in `s`.
pub open spec fn nowhere(s: Seq<char>, p: Seq<char>) -> bool {
    forall|k: int| !#[trigger] occurs_at(s, p, k)
}

pub proof fn lemma_find_from_first(s: Seq<char>, p: Seq<char>, i: int)
    ensures
        find_from(s, p, i) matches Some(j) ==> forall|k: int|
            i <= k < j ==> !#[trigger] occurs_at(s, p, k),
        find_from(s, p, i) is None && 0 <= i ==> forall|k: int|
            i <= k ==> !#[trigger] occurs_at(s, p, k),
    decreases s.len() + 1 - i,
{
    if i < 0 || i + p.len() > s.len() {
        if i >= 0 {
            assert forall|k: int| i <= k implies !#[trigger] occurs_at(s, p, k) by {}
        }
    } else if occurs_at(s, p, i) {
    } else {
        lemma_find_from_first(s, p, i + 1);
    }
}

pub proof fn lemma_find_none(s: Seq<char>, p: Seq<char>, i: int)
    requires
        0 <= i,
        forall|k: int| i <= k ==> !#[trigger] occurs_at(s, p, k),
    ensures
        find_from(s, p, i) is None,
    decreases s.len() + 1 - i,
{
    if !(i + p.len() > s.len()) {
        assert(!occurs_at(s, p, i));
        lemma_find_none(s, p, i + 1);
    }
}

pub proof fn lemma_nowhere_subrange(s: Seq<char>, p: Seq<char>, a: int, b: int)
    requires
        0 <= a <= b <= s.len(),
        forall|k: int| a <= k && k + p.len() <= b ==> !#[trigger] occurs_at(s, p, k),
    ensures
        nowhere(s.subrange(a, b), p),
{
    let t = s.subrange(a, b);
    assert forall|k: int| !#[trigger] occurs_at(t, p, k) by {
        if occurs_at(t, p, k) {
            assert(t.subrange(k, k + p.len()) =~= s.subrange(a + k, a + k + p.len()));
            assert(occurs_at(s, p, a + k));
        }
    }
}

pub proof fn lemma_trim_start_is_suffix(x: Seq<char>)
    ensures
        trim_start(x).len() <= x.len(),
        trim_start(x) == x.skip(x.len() - trim_start(x).len()),
    decreases x.len(),
{
    if x.len() > 0 && is_ws(x[0]) {
        lemma_trim_start_is_suffix(x.drop_first());
        assert(x.drop_first().skip(x.drop_first().len() - trim_start(x).len()) =~= x.skip(
            x.len() - trim_start(x).len(),
        ));
    } else {
        assert(x.skip(0) =~= x);
    }
}

pub proof fn lemma_trim_end_is_prefix(y: Seq<char>)
    ensures
        trim_end(y).len() <= y.len(),
        trim_end(y) == y.take(trim_end(y).len() as int),
    decreases y.len(),
{
    if y.len() > 0 && is_ws(y.last()) {
        lemma_trim_end_is_prefix(y.drop_last());
        assert(y.drop_last().take(trim_end(y).len() as int) =~= y.take(trim_end(y).len() as int));
    } else {
        assert(y.take(y.len() as int) =~= y);
    }
}

/// Trimming keeps a text free of `p`.
pub proof fn lemma_nowhere_trim(x: Seq<char>, p: Seq<char>)
    requires
        nowhere(x, p),
    ensures
        nowhere(trim(x), p),
{
    lemma_trim_start_is_suffix(x);
    let a = x.len() - trim_start(x).len();
    lemma_nowhere_subrange(x, p, a, x.len() as int);
    assert(x.skip(a) =~= x.subrange(a, x.len() as int));
    let y = trim_start(x);
    lemma_trim_end_is_prefix(y);
    lemma_nowhere_subrange(y, p, 0, trim_end(y).len() as int);
    assert(y.take(trim_end(y).len() as int) =~= y.subrange(0, trim_end(y).len() as int));
}

proof fn lemma_find_from_shift(s: Seq<char>, p: Seq<char>, i: int)
    requires
        0 <= i,
        s.len() > 0,
    ensures
        find_from(s, p, i + 1) == match find_from(s.drop_first(), p, i) {
            Some(j) => Some(j + 1),
            None => None::<int>,
        },
    decreases s.len() + 1 - i,
{
    let t = s.drop_first();
    if !(i + p.len() > t.len()) {
        assert(s.subrange(i + 1, i + 1 + p.len()) =~= t.subrange(i, i + p.len()));
        if !occurs_at(t, p, i) {
            lemma_find_from_shift(s, p, i + 1);
        }
    }
}

/// `str::replace` with a nonempty pattern: a text where `p` does not occur
/// stays as it is; otherwise the text before the first occurrence is kept,
/// that occurrence becomes `r`, and the rest after it is replaced in turn.
pub proof fn lemma_replace_law(s: Seq<char>, p: Seq<char>, r: Seq<char>)
    requires
        p.len() > 0,
    ensures
        find(s, p) is None ==> replace(s, p, r) == s,
        find(s, p) matches Some(i) ==> replace(s, p, r) == s.take(i) + r + replace(
            s.skip(i + p.len()),
            p,
            r,
        ),
    decreases s.len(),
{
    if s.len() == 0 {
    } else if starts_with(s, p) {
        assert(occurs_at(s, p, 0));
        assert(s.take(0) + r =~= r);
    } else {
        let t = s.drop_first();
        lemma_replace_law(t, p, r);
        lemma_find_from_shift(s, p, 0);
        assert(!occurs_at(s, p, 0));
        if 0 + p.len() > s.len() {
            assert(find(s, p) is None);
            assert(find(t, p) is None);
            assert(seq![s[0]] + t =~= s);
        } else {
            assert(find(s, p) == find_from(s, p, 1));
            match find(t, p) {
                None => {
                    assert(seq![s[0]] + t =~= s);
                },
                Some(j) => {
                    lemma_find_bounds(t, p);
                    assert(0 <= j && j + p.len() <= t.len());
                    assert(s.take(j + 1) =~= seq![s[0]] + t.take(j));
                    assert(s.skip(j + 1 + p.len()) =~= t.skip(j + p.len()));
                    assert(seq![s[0]] + (t.take(j) + r + replace(t.skip(j + p.len()), p, r))
                        =~= s.take(j + 1) + r + replace(s.skip(j + 1 + p.len()), p, r));
                },
            }
        }
    }
}

/// Replacing a text by itself changes nothing.
pub proof fn lemma_replace_same(s: Seq<char>, p: Seq<char>)
    ensures
        replace(s, p, p) == s,
    decreases s.len(),
{
    if p.len() == 0 {
        assert(p =~= Seq::<char>::empty());
        lemma_replace_empty_nothing(s);
    } else if s.len() == 0 {
    } else if starts_with(s, p) {
        lemma_replace_same(s.skip(p.len() as int), p);
        assert(replace(s, p, p) == p + replace(s.skip(p.len() as int), p, p));
        assert(s.subrange(0, p.len() as int) == p);
        assert(p + s.skip(p.len() as int) =~= s);
    } else {
        lemma_replace_same(s.drop_first(), p);
        assert(replace(s, p, p) == seq![s[0]] + replace(s.drop_first(), p, p));
        assert(seq![s[0]] + s.drop_first() =~= s);
    }
}

proof fn lemma_replace_empty_nothing(s: Seq<char>)
    ensures
        replace_empty(s, Seq::<char>::empty()) == s,
    decreases s.len(),
{
    if s.len() > 0 {
        lemma_replace_empty_nothing(s.drop_first());
        assert(Seq::<char>::empty() + seq![s[0]] + s.drop_first() == s);
    }
}

// ---------------------------------------------------------------------------
// Executable operations
// ---------------------------------------------------------------------------

/// The characters of `s`, in order.
pub fn chars_of(s: &str) -> (res: Vec<char>)
    ensures
        res@ == s@,
{
    let mut res: Vec<char> = Vec::new();
    for c in it: s.chars()
        invariant
            res@ == it.seq().take(it.index() as int),
            it.seq() == s@,
    {
        res.push(c);
    }
    res
}

/// Appends one character to a string by `String::push`.  The contract
/// claims what its documentation says: the string's characters afterwards
/// are those before, followed by `c`.
#[verifier::external_body]
fn push_char(s: &mut String, c: char)
    ensures
        final(s)@ == old(s)@.push(c),
{
    s.push(c);
}

/// The string made of the given characters.
pub fn string_of(v: &[char]) -> (res: String)
    ensures
        res@ == v@,
{
    let mut res = String::new();
    let mut i: usize = 0;
    while i < v.len()
        invariant
            i <= v.len(),
            res@ == v@.take(i as int),
        decreases v.len() - i,
    {
        push_char(&mut res, v[i]);
        assert(v@.take(i + 1) == v@.take(i as int).push(v@[i as int]));
        i = i + 1;
    }
    assert(v@.take(v.len() as int) == v@);
    res
}

/// The characters of `s` from index `a` to index `b`.
pub fn slice_chars(s: &[char], a: usize, b: usize) -> (res: Vec<char>)
    requires
        a <= b <= s@.len(),
    ensures
        res@ == s@.subrange(a as int, b as int),
{
    let mut res: Vec<char> = Vec::new();
    let mut i = a;
    while i < b
        invariant
            a <= i <= b <= s@.len(),
            res@ == s@.subrange(a as int, i as int),
        decreases b - i,
    {
        res.push(s[i]);
        assert(s@.subrange(a as int, i + 1) == s@.subrange(a as int, i as int).push(s@[i as int]));
        i = i + 1;
    }
    res
}

/// `a` followed by `b`.
pub fn cat(a: &[char], b: &[char]) -> (res: Vec<char>)
    ensures
        res@ == a@ + b@,
{
    let mut res: Vec<char> = Vec::new();
    let mut i: usize = 0;
    while i < a.len()
        invariant
            i <= a.len(),
            res@ == a@.take(i as int),
        decreases a.len() - i,
    {
        res.push(a[i]);
        assert(a@.take(i + 1) == a@.take(i as int).push(a@[i as int]));
        i = i + 1;
    }
    assert(a@.take(a.len() as int) == a@);
    let mut j: usize = 0;
    while j < b.len()
        invariant
            j <= b.len(),
            res@ == a@ + b@.take(j as int),
        decreases b.len() - j,
    {
        res.push(b[j]);
        assert(b@.take(j + 1) == b@.take(j as int).push(b@[j as int]));
        j = j + 1;
    }
    assert(b@.take(b.len() as int) == b@);
    res
}

/// Appends the characters of `s` to `v`.
pub fn extend_chars(v: &mut Vec<char>, s: &[char])
    ensures
        final(v)@ == old(v)@ + s@,
{
    let mut i: usize = 0;
    while i < s.len()
        invariant
            i <= s@.len(),
            v@ == old(v)@ + s@.take(i as int),
        decreases s.len() - i,
    {
        v.push(s[i]);
        assert(s@.take(i + 1) == s@.take(i as int).push(s@[i as int]));
        i = i + 1;
    }
    assert(s@.take(s@.len() as int) == s@);
}

/// Appends the characters of `s` to `v`.
pub fn extend_str(v: &mut Vec<char>, s: &str)
    ensures
        final(v)@ == old(v)@ + s@,
{
    let cs = chars_of(s);
    extend_chars(v, &cs);
}

/// Whether `c` is white space.
pub fn char_is_ws(c: char) -> (res: bool)
    ensures
        res == is_ws(c),
{
    c == '\t' || c == '\n' || c == '\u{0B}' || c == '\u{0C}' || c == '\r' || c == ' ' || c
        == '\u{85}' || c == '\u{A0}' || c == '\u{1680}' || ('\u{2000}' <= c && c <= '\u{200A}')
        || c == '\u{2028}' || c == '\u{2029}' || c == '\u{202F}' || c == '\u{205F}' || c
        == '\u{3000}'
}

proof fn lemma_trim_start_skip(s: Seq<char>, i: int)
    requires
        0 <= i < s.len(),
        is_ws(s[i]),
    ensures
        trim_start(s.skip(i)) == trim_start(s.skip(i + 1)),
{
    assert(s.skip(i).drop_first() == s.skip(i + 1));
}

proof fn lemma_trim_end_take(s: Seq<char>, j: int)
    requires
        0 < j <= s.len(),
        is_ws(s[j - 1]),
    ensures
        trim_end(s.take(j)) == trim_end(s.take(j - 1)),
{
    assert(s.take(j).drop_last() == s.take(j - 1));
}

/// The bounds of `s` without leading and trailing white space.
pub fn trim_bounds(s: &[char]) -> (res: (usize, usize))
    ensures
        res.0 <= res.1 <= s@.len(),
        s@.subrange(res.0 as int, res.1 as int) == trim(s@),
{
    let mut a: usize = 0;
    assert(s@.skip(0) == s@);
    while a < s.len() && char_is_ws(s[a])
        invariant
            a <= s@.len(),
            trim_start(s@) == trim_start(s@.skip(a as int)),
        decreases s.len() - a,
    {
        proof {
            lemma_trim_start_skip(s@, a as int);
        }
        a = a + 1;
    }
    let ghost u = s@.skip(a as int);
    assert(trim_start(s@) == u);
    let mut b: usize = s.len();
    assert(u.take(b - a) == u);
    while b > a && char_is_ws(s[b - 1])
        invariant
            a <= b <= s@.len(),
            u == s@.skip(a as int),
            trim_end(u) == trim_end(u.take(b - a)),
        decreases b - a,
    {
        proof {
            lemma_trim_end_take(u, (b - a) as int);
        }
        b = b - 1;
    }
    assert(u.take(b - a) == s@.subrange(a as int, b as int));
    (a, b)
}

/// `s` without leading and trailing white space.
pub fn trim_chars(s: &[char]) -> (res: Vec<char>)
    ensures
        res@ == trim(s@),
{
    let (a, b) = trim_bounds(s);
    slice_chars(s, a, b)
}

/// Whether `p` occurs in `s` at index `i`.
pub fn occurs_at_exec(s: &[char], p: &[char], i: usize) -> (res: bool)
    ensures
        res == occurs_at(s@, p@, i as int),
{
    if i > s.len() || p.len() > s.len() - i {
        return false;
    }
    let mut k: usize = 0;
    while k < p.len()
        invariant
            i + p@.len() <= s@.len(),
            k <= p@.len(),
            i <= s@.len(),
            forall|m: int| 0 <= m < k ==> s@[i + m] == p@[m],
        decreases p.len() - k,
    {
        assert(k < p@.len());
        assert(i + k < s@.len());
        assert(s@.len() == s.len());
        if s[i + k] != p[k] {
            assert(s@.subrange(i as int, i + p@.len())[k as int] != p@[k as int]);
            return false;
        }
        k = k + 1;
    }
    assert(s@.subrange(i as int, i + p@.len()) == p@);
    true
}

/// Whether `s` begins with `p`.
pub fn has_prefix(s: &[char], p: &[char]) -> (res: bool)
    ensures
        res == starts_with(s@, p@),
{
    occurs_at_exec(s, p, 0)
}

/// Whether `s` ends with `p`.
pub fn has_suffix(s: &[char], p: &[char]) -> (res: bool)
    ensures
        res == ends_with(s@, p@),
{
    if p.len() > s.len() {
        false
    } else {
        occurs_at_exec(s, p, s.len() - p.len())
    }
}

/// Whether two texts are equal.
pub fn same_chars(a: &[char], b: &[char]) -> (res: bool)
    ensures
        res == (a@ == b@),
{
    if a.len() != b.len() {
        return false;
    }
    let r = occurs_at_exec(a, b, 0);
    assert(a@.subrange(0, b@.len() as int) == a@);
    r
}

/// The first index where `p` occurs in `s`.
pub fn find_chars(s: &[char], p: &[char]) -> (res: Option<usize>)
    ensures
        match res {
            Some(i) => find(s@, p@) == Some(i as int),
            None => find(s@, p@) is None,
        },
{
    if p.len() > s.len() {
        return None;
    }
    let last = s.len() - p.len();
    let mut i: usize = 0;
    loop
        invariant
            last + p@.len() == s@.len(),
            i <= last,
            find(s@, p@) == find_from(s@, p@, i as int),
        decreases last - i,
    {
        if occurs_at_exec(s, p, i) {
            return Some(i);
        }
        if i == last {
            assert(find_from(s@, p@, i + 1) is None);
            return None;
        }
        i = i + 1;
    }
}

/// Whether `p` occurs in `s`.
pub fn contains_chars(s: &[char], p: &[char]) -> (res: bool)
    ensures
        res == contains(s@, p@),
{
    find_chars(s, p).is_some()
}

/// The last index where `p` occurs in `s`.
pub fn rfind_chars(s: &[char], p: &[char]) -> (res: Option<usize>)
    ensures
        match res {
            Some(i) => rfind(s@, p@) == Some(i as int) && i + p@.len() <= s@.len(),
            None => rfind(s@, p@) is None,
        },
{
    if p.len() > s.len() {
        return None;
    }
    let mut i: usize = s.len() - p.len();
    loop
        invariant
            i + p@.len() <= s@.len(),
            rfind(s@, p@) == rfind_from(s@, p@, i as int),
        decreases i,
    {
        if occurs_at_exec(s, p, i) {
            return Some(i);
        }
        if i == 0 {
            assert(rfind_from(s@, p@, -1) is None);
            return None;
        }
        i = i - 1;
    }
}

/// `s` with every non-overlapping occurrence of `p` replaced by `r`.
pub fn replace_chars(s: &[char], p: &[char], r: &[char]) -> (res: Vec<char>)
    ensures
        res@ == replace(s@, p@, r@),
{
    let mut res: Vec<char> = Vec::new();
    let mut i: usize = 0;
    assert(s@.skip(0) == s@);
    if p.len() == 0 {
        while i < s.len()
            invariant
                i <= s@.len(),
                p@.len() == 0,
                res@ + replace_empty(s@.skip(i as int), r@) == replace(s@, p@, r@),
            decreases s.len() - i,
        {
            let ghost t = s@.skip(i as int);
            assert(t.drop_first() == s@.skip(i + 1));
            let ghost before = res@;
            res = cat(&res, r);
            res.push(s[i]);
            assert(res@ == before + r@ + seq![s@[i as int]]);
            assert(before + (r@ + seq![t[0]] + replace_empty(t.drop_first(), r@)) == res@
                + replace_empty(s@.skip(i + 1), r@));
            i = i + 1;
        }
        assert(s@.skip(i as int).len() == 0);
        res = cat(&res, r);
        return res;
    }
    while i < s.len()
        invariant
            i <= s@.len(),
            p@.len() > 0,
            res@ + replace(s@.skip(i as int), p@, r@) == replace(s@, p@, r@),
        decreases s.len() - i,
    {
        let ghost t = s@.skip(i as int);
        let ghost before = res@;
        if occurs_at_exec(s, p, i) {
            assert(t.subrange(0, p@.len() as int) == s@.subrange(i as int, i + p@.len()));
            assert(starts_with(t, p@));
            assert(t.skip(p@.len() as int) == s@.skip(i + p@.len()));
            res = cat(&res, r);
            assert(before + (r@ + replace(t.skip(p@.len() as int), p@, r@)) == res@ + replace(
                s@.skip(i + p@.len()),
                p@,
                r@,
            ));
            i = i + p.len();
        } else {
            assert(!starts_with(t, p@)) by {
                if starts_with(t, p@) {
                    assert(t.subrange(0, p@.len() as int) == s@.subrange(
                        i as int,
                        i + p@.len(),
                    ));
                }
            }
            assert(t.drop_first() == s@.skip(i + 1));
            res.push(s[i]);
            assert(before + (seq![t[0]] + replace(t.drop_first(), p@, r@)) == res@ + replace(
                s@.skip(i + 1),
                p@,
                r@,
            ));
            i = i + 1;
        }
    }
    assert(s@.skip(i as int).len() == 0);
    assert(res@ + s@.skip(i as int) == res@);
    res
}

/// The pieces of `s` between the occurrences of `c`.
pub fn split_chars(s: &[char], c: char) -> (res: Vec<Vec<char>>)
    ensures
        res.deep_view() == split_on(s@, c),
{
    let mut done: Vec<Vec<char>> = Vec::new();
    let mut cur: Vec<char> = Vec::new();
    let mut i: usize = 0;
    assert(s@.take(0) == Seq::<char>::empty());
    while i < s.len()
        invariant
            i <= s@.len(),
            done.deep_view().push(cur@) == split_on(s@.take(i as int), c),
        decreases s.len() - i,
    {
        let ghost before = done.deep_view().push(cur@);
        assert(s@.take(i + 1).drop_last() == s@.take(i as int));
        assert(s@.take(i + 1).last() == s@[i as int]);
        if s[i] == c {
            let ghost old_done = done.deep_view();
            let piece = cur;
            done.push(piece);
            cur = Vec::new();
            proof {
                lemma_deep_view_push(old_done, done.deep_view(), done@, piece);
            }
            assert(done.deep_view().push(cur@) =~= before.push(Seq::<char>::empty()));
        } else {
            cur.push(s[i]);
            assert(done.deep_view().push(cur@) =~= before.update(
                before.len() - 1,
                before.last().push(s@[i as int]),
            ));
        }
        i = i + 1;
    }
    let ghost old_done = done.deep_view();
    let ghost last = cur@;
    let ghost last_vec = cur;
    done.push(cur);
    proof {
        lemma_deep_view_push(old_done, done.deep_view(), done@, last_vec);
    }
    assert(s@.take(s@.len() as int) == s@);
    done
}

/// The lines of `s`, each with its `'\n'`.
pub fn split_text_lines(s: &[char]) -> (res: Vec<Vec<char>>)
    ensures
        res.deep_view() == split_lines(s@),
{
    let mut done: Vec<Vec<char>> = Vec::new();
    let mut cur: Vec<char> = Vec::new();
    let mut i: usize = 0;
    assert(s@.take(0) == Seq::<char>::empty());
    assert(done.deep_view() =~= Seq::<Seq<char>>::empty());
    while i < s.len()
        invariant
            i <= s@.len(),
            cur@.len() == 0 ==> done.deep_view() == split_lines(s@.take(i as int)),
            cur@.len() > 0 ==> cur@.last() != '\n' && done.deep_view().push(cur@) == split_lines(
                s@.take(i as int),
            ),
            forall|k: int|
                0 <= k < done.deep_view().len() ==> #[trigger] done.deep_view()[k].len() > 0
                    && done.deep_view()[k].last() == '\n',
        decreases s.len() - i,
    {
        let ghost t = s@.take(i as int);
        let ghost c = s@[i as int];
        let ghost p = split_lines(t);
        let ghost d0 = done.deep_view();
        let ghost cur0 = cur@;
        assert(s@.take(i + 1).drop_last() == t);
        assert(s@.take(i + 1).last() == c);
        let ghost next_lines = if cur0.len() > 0 {
            d0.push(cur0.push(c))
        } else {
            d0.push(seq![c])
        };
        proof {
            if cur0.len() > 0 {
                assert(p.last() == cur0);
                assert(p.update(p.len() - 1, p.last().push(c)) =~= next_lines);
            } else {
                if p.len() > 0 {
                    assert(p.last() == d0[p.len() - 1]);
                }
            }
        }
        assert(split_lines(s@.take(i + 1)) == next_lines);
        cur.push(s[i]);
        assert(cur@ == if cur0.len() > 0 { cur0.push(c) } else { seq![c] });
        if s[i] == '\n' {
            let ghost piece = cur;
            let moved = cur;
            done.push(moved);
            cur = Vec::new();
            proof {
                lemma_deep_view_push(d0, done.deep_view(), done@, piece);
            }
        }
        i = i + 1;
    }
    if cur.len() > 0 {
        let ghost d0 = done.deep_view();
        let ghost piece = cur;
        done.push(cur);
        proof {
            lemma_deep_view_push(d0, done.deep_view(), done@, piece);
        }
    }
    assert(s@.take(s@.len() as int) == s@);
    done
}

/// The number of UTF-8 bytes of `c`.
pub fn char_width(c: char) -> (res: usize)
    ensures
        res == utf8_width(c),
{
    let v = c as u32;
    if v <= 0x7F {
        1
    } else if v <= 0x7FF {
        2
    } else if v <= 0xFFFF {
        3
    } else {
        4
    }
}

/// The number of UTF-8 bytes of `s`, when it fits.
pub fn utf8_len_of(s: &[char]) -> (res: Option<usize>)
    ensures
        match res {
            Some(n) => n == utf8_len(s@),
            None => utf8_len(s@) > usize::MAX,
        },
{
    let mut n: usize = 0;
    let mut i: usize = 0;
    while i < s.len()
        invariant
            i <= s@.len(),
            n == utf8_len(s@.take(i as int)),
        decreases s.len() - i,
    {
        assert(s@.take(i + 1).drop_last() == s@.take(i as int));
        let w = char_width(s[i]);
        if n > usize::MAX - w {
            proof {
                lemma_utf8_len_append(s@.take(i + 1), s@.skip(i + 1));
                assert(s@.take(i + 1) + s@.skip(i + 1) == s@);
            }
            return None;
        }
        n = n + w;
        i = i + 1;
    }
    assert(s@.take(s@.len() as int) == s@);
    Some(n)
}

/// The number of UTF-8 bytes of `s`, which must fit in a `usize`.
pub fn utf8_len_bounded(s: &[char]) -> (res: usize)
    requires
        utf8_len(s@) <= usize::MAX,
    ensures
        res == utf8_len(s@),
{
    match utf8_len_of(s) {
        Some(n) => n,
        None => 0,
    }
}

/// The decimal notation of `n`.
pub fn decimal_chars(n: u64) -> (res: Vec<char>)
    ensures
        res@ == decimal(n as nat),
    decreases n,
{
    let d = n % 10;
    let c = if d == 0 { '0' }
    else if d == 1 { '1' }
    else if d == 2 { '2' }
    else if d == 3 { '3' }
    else if d == 4 { '4' }
    else if d == 5 { '5' }
    else if d == 6 { '6' }
    else if d == 7 { '7' }
    else if d == 8 { '8' }
    else { '9' };
    if n < 10 {
        vec![c]
    } else {
        let mut v = decimal_chars(n / 10);
        v.push(c);
        v
    }
}

/// The decimal notation of `n`, as a `String`.
pub fn decimal_string(n: u64) -> (res: String)
    ensures
        res@ == decimal(n as nat),
{
    let v = decimal_chars(n);
    string_of(&v)
}

/// Whether `v` holds a string equal to `s`.
pub fn has_string(v: &Vec<String>, s: &String) -> (res: bool)
    ensures
        res == v.deep_view().contains(s@),
{
    let mut i: usize = 0;
    while i < v.len()
        invariant
            i <= v@.len(),
            forall|k: int| 0 <= k < i ==> v.deep_view()[k] != s@,
        decreases v.len() - i,
    {
        if v[i] == *s {
            assert(v.deep_view()[i as int] == s@);
            return true;
        }
        i = i + 1;
    }
    proof {
        if v.deep_view().contains(s@) {
            let k = choose|k: int| 0 <= k < v.deep_view().len() && v.deep_view()[k] == s@;
            assert(v.deep_view()[k] != s@);
        }
    }
    false
}

} // verus!
