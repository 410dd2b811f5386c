//! The grammar of ION text, as functions from a character sequence and a
//! position to what is read there and where reading stops.

use vstd::prelude::*;
use vstd::utf8::encode_utf8;
use crate::sorted_map::map_insert;
use crate::text::{is_blank, lemma_run_end, run_end};
use crate::value::Node;

verus! {

/// A positional error: a byte range of the input and what went wrong there.
pub struct Fault {
    pub lo: int,
    pub hi: int,
    pub desc: Seq<char>,
}

/// The outcome of reading one thing: what was read and the position after
/// it, or a failure with the error it records.
pub enum Scan<T> {
    Done(T, int),
    Fail(Fault),
}

/// One structural element of a document.
pub enum Elem {
    Section(Seq<char>),
    Row(Seq<Node>),
    Entry(Seq<char>, Node),
    Comment(Seq<char>),
}

/// The outcome of asking for the next element: the element, the position after
/// it and the accepted names still outstanding; the end; or a failure.
pub enum Step {
    Emit(Elem, int, Option<Seq<Seq<char>>>),
    End,
    Fail(Fault),
}

/// The byte offset of character position `i`.
pub open spec fn byte_at(s: Seq<char>, i: int) -> int {
    encode_utf8(s.subrange(0, i)).len() as int
}

pub open spec fn is_digit(c: char) -> bool {
    '0' <= c <= '9'
}

/// Characters that may form a key: ASCII letters and digits, `_` and `-`.
pub open spec fn is_key_char(c: char) -> bool {
    ('a' <= c <= 'z') || ('A' <= c <= 'Z') || ('0' <= c <= '9') || c == '_' || c == '-'
}

pub open spec fn ws_end(s: Seq<char>, p: int) -> int {
    run_end(s, p, |c: char| is_blank(c))
}

/// The first position at or after `p` that holds `ch`, or the end.
pub open spec fn find_from(s: Seq<char>, p: int, ch: char) -> int
    decreases s.len() - p,
{
    if 0 <= p < s.len() && s[p] != ch {
        find_from(s, p + 1, ch)
    } else {
        p
    }
}

pub proof fn lemma_ws_end(s: Seq<char>, p: int)
    requires
        0 <= p <= s.len(),
    ensures
        p <= ws_end(s, p) <= s.len(),
        forall|i: int| p <= i < ws_end(s, p) ==> is_blank(#[trigger] s[i]),
        ws_end(s, p) < s.len() ==> !is_blank(s[ws_end(s, p)]),
{
    lemma_run_end(s, p, |c: char| is_blank(c));
}

pub proof fn lemma_find_from(s: Seq<char>, p: int, ch: char)
    requires
        0 <= p <= s.len(),
    ensures
        p <= find_from(s, p, ch) <= s.len(),
        forall|i: int| p <= i < find_from(s, p, ch) ==> #[trigger] s[i] != ch,
        find_from(s, p, ch) < s.len() ==> s[find_from(s, p, ch)] == ch,
        p < s.len() ==> p < line_end_of(s, p, ch) <= s.len(),
        p < s.len() ==> p < line_end(s, p) <= s.len(),
    decreases s.len() - p,
{
    if p < s.len() {
        lemma_find_from(s, p + 1, ch);
        lemma_find_from(s, p + 1, '\n');
    }
}

/// A position that ends a run free of `ch` is where `find_from` stops.
pub proof fn lemma_find_from_unique(s: Seq<char>, p: int, e: int, ch: char)
    requires
        0 <= p <= e <= s.len(),
        forall|i: int| p <= i < e ==> #[trigger] s[i] != ch,
        e == s.len() || s[e] == ch,
    ensures
        find_from(s, p, ch) == e,
    decreases e - p,
{
    if p < e {
        lemma_find_from_unique(s, p + 1, e, ch);
    }
}

/// The position after a line break (`\n` or `\r\n`) at `p`, or `p` when there is none.
pub open spec fn newline_end(s: Seq<char>, p: int) -> int {
    if 0 <= p < s.len() && s[p] == '\n' {
        p + 1
    } else if 0 <= p && p + 1 < s.len() && s[p] == '\r' && s[p + 1] == '\n' {
        p + 2
    } else {
        p
    }
}

/// The position after the next `\n` at or after `p`, or the end.
pub open spec fn line_end(s: Seq<char>, p: int) -> int {
    let e = find_from(s, p, '\n');
    if e < s.len() {
        e + 1
    } else {
        e
    }
}

/// Text from `p` through the first `ch`, and the position after it.
pub open spec fn slice_through(s: Seq<char>, p: int, ch: char) -> Option<(Seq<char>, int)> {
    if p >= s.len() {
        None
    } else {
        let e = line_end_of(s, p, ch);
        Some((s.subrange(p, e), e))
    }
}

/// The position just after the first `ch` at or after `p`, or the end.
pub open spec fn line_end_of(s: Seq<char>, p: int, ch: char) -> int {
    let e = find_from(s, p, ch);
    if e < s.len() {
        e + 1
    } else {
        e
    }
}

/// Text from `p` up to the first `ch`, and the position after that `ch`.
pub open spec fn slice_until(s: Seq<char>, p: int, ch: char) -> Option<(Seq<char>, int)> {
    if p >= s.len() {
        None
    } else {
        Some((s.subrange(p, find_from(s, p, ch)), line_end_of(s, p, ch)))
    }
}

/// Unicode `White_Space`, the characters that `str::trim_end` removes.
pub open spec fn is_white_space(c: char) -> bool {
    ('\u{9}' <= c <= '\u{d}') || c == ' ' || c == '\u{85}' || c == '\u{a0}' || c == '\u{1680}'
        || ('\u{2000}' <= c <= '\u{200a}') || c == '\u{2028}' || c == '\u{2029}' || c
        == '\u{202f}' || c == '\u{205f}' || c == '\u{3000}'
}

/// `t` without its trailing white space.
pub open spec fn trim_end(t: Seq<char>) -> Seq<char>
    decreases t.len(),
{
    if t.len() > 0 && is_white_space(t.last()) {
        trim_end(t.drop_last())
    } else {
        t
    }
}

/// The value of a run of decimal digits.
pub open spec fn digits_value(d: Seq<char>) -> int
    decreases d.len(),
{
    if d.len() == 0 {
        0
    } else {
        digits_value(d.drop_last()) * 10 + (d.last() as int - '0' as int)
    }
}

pub open spec fn strip_leading_zeros(d: Seq<char>) -> Seq<char>
    decreases d.len(),
{
    if d.len() > 1 && d[0] == '0' {
        strip_leading_zeros(d.drop_first())
    } else {
        d
    }
}

pub open spec fn strip_trailing_zeros(d: Seq<char>) -> Seq<char>
    decreases d.len(),
{
    if d.len() > 0 && d.last() == '0' {
        strip_trailing_zeros(d.drop_last())
    } else {
        d
    }
}

/// The canonical text of the decimal `whole.frac`.
pub open spec fn decimal_text(whole: Seq<char>, frac: Seq<char>) -> Seq<char> {
    let w = strip_leading_zeros(whole);
    let f = strip_trailing_zeros(frac);
    if f.len() == 0 {
        w
    } else {
        w + seq!['.'] + f
    }
}

/// An error over the one character at `q` (an empty range at the end).
pub open spec fn char_fault(s: Seq<char>, q: int, desc: Seq<char>) -> Fault {
    Fault {
        lo: byte_at(s, if q < s.len() { q } else { s.len() as int }),
        hi: byte_at(s, if q + 1 < s.len() { q + 1 } else { s.len() as int }),
        desc,
    }
}

/// The error recorded where a value was expected and none starts.
pub open spec fn no_value_fault(s: Seq<char>, q: int) -> Fault {
    char_fault(s, q, "expected a value"@)
}

/// The error recorded where the input ends inside an array or a dictionary.
pub open spec fn unfinished_fault(s: Seq<char>, desc: Seq<char>) -> Fault {
    Fault { lo: byte_at(s, s.len() as int), hi: byte_at(s, s.len() as int), desc }
}

/// Where a value starts: blanks, one line break and blanks again are skipped.
pub open spec fn value_start(s: Seq<char>, p: int) -> int {
    ws_end(s, newline_end(s, ws_end(s, p)))
}

/// A number at `q`, which holds a digit.
pub open spec fn number_at(s: Seq<char>, q: int) -> Scan<Node> {
    let d1 = run_end(s, q, |c: char| is_digit(c));
    if d1 < s.len() && s[d1] == '.' {
        let d2 = run_end(s, d1 + 1, |c: char| is_digit(c));
        if d2 == d1 + 1 {
            Scan::Fail(no_value_fault(s, q))
        } else {
            Scan::Done(Node::Float(decimal_text(s.subrange(q, d1), s.subrange(d1 + 1, d2))), d2)
        }
    } else {
        let n = digits_value(s.subrange(q, d1));
        if n <= i64::MAX {
            Scan::Done(Node::Int(n), d1)
        } else {
            Scan::Fail(no_value_fault(s, q))
        }
    }
}

/// `true` or `false` at `q`.
pub open spec fn boolean_at(s: Seq<char>, q: int) -> Scan<Node> {
    if q + 4 <= s.len() && s.subrange(q, q + 4) == "true"@ {
        Scan::Done(Node::Bool(true), q + 4)
    } else if q + 5 <= s.len() && s.subrange(q, q + 5) == "false"@ {
        Scan::Done(Node::Bool(false), q + 5)
    } else {
        Scan::Fail(no_value_fault(s, q))
    }
}

/// A value starting at or after `p`.
pub open spec fn value_at(s: Seq<char>, p: int) -> Scan<Node>
    decreases s.len() - p, 0int,
{
    let q = value_start(s, p);
    if !(0 <= p <= q <= s.len()) {
        Scan::Fail(no_value_fault(s, q))
    } else if q == s.len() {
        Scan::Fail(no_value_fault(s, q))
    } else if s[q] == '"' {
        match slice_until(s, q + 1, '"') {
            Some((t, e)) => Scan::Done(Node::Str(t), e),
            None => Scan::Fail(no_value_fault(s, q)),
        }
    } else if s[q] == '[' {
        array_items(s, q + 1, Seq::empty())
    } else if s[q] == '{' {
        dict_items(s, q + 1, Seq::empty())
    } else if is_digit(s[q]) {
        number_at(s, q)
    } else if s[q] == 't' || s[q] == 'f' {
        boolean_at(s, q)
    } else {
        Scan::Fail(no_value_fault(s, q))
    }
}

/// The rest of an array from `r`, whose items so far are `acc`.
pub open spec fn array_items(s: Seq<char>, r: int, acc: Seq<Node>) -> Scan<Node>
    decreases s.len() - r, 1int,
{
    let r1 = ws_end(s, r);
    if !(0 <= r <= r1 <= s.len()) {
        Scan::Fail(unfinished_fault(s, "Cannot finish an array"@))
    } else if r1 == s.len() {
        Scan::Fail(unfinished_fault(s, "Cannot finish an array"@))
    } else if s[r1] == ']' {
        Scan::Done(Node::Array(acc), r1 + 1)
    } else if s[r1] == ',' {
        array_items(s, r1 + 1, acc)
    } else {
        match value_at(s, r1) {
            Scan::Done(v, e) => if r1 < e <= s.len() {
                array_items(s, e, acc.push(v))
            } else {
                Scan::Fail(unfinished_fault(s, "Cannot finish an array"@))
            },
            Scan::Fail(f) => Scan::Fail(f),
        }
    }
}

/// The rest of a dictionary from `r`, whose entries so far are `acc`.
pub open spec fn dict_items(s: Seq<char>, r: int, acc: Seq<(Seq<char>, Node)>) -> Scan<Node>
    decreases s.len() - r, 2int,
{
    let r1 = ws_end(s, r);
    if !(0 <= r <= r1 <= s.len()) {
        Scan::Fail(unfinished_fault(s, "Cannot finish a dictionary"@))
    } else if r1 == s.len() {
        Scan::Fail(unfinished_fault(s, "Cannot finish a dictionary"@))
    } else if s[r1] == '}' {
        Scan::Done(Node::Dict(acc), r1 + 1)
    } else if s[r1] == ',' || s[r1] == '\n' {
        dict_items(s, r1 + 1, acc)
    } else {
        match entry_at(s, r1) {
            Scan::Done(kv, e) => if r1 < e <= s.len() {
                dict_items(s, e, map_insert(acc, kv.0, kv.1))
            } else {
                Scan::Fail(unfinished_fault(s, "Cannot finish a dictionary"@))
            },
            Scan::Fail(f) => Scan::Fail(f),
        }
    }
}

/// An entry `key = value` at `p`.
pub open spec fn entry_at(s: Seq<char>, p: int) -> Scan<(Seq<char>, Node)>
    decreases s.len() - p, 1int,
{
    let k = run_end(s, p, |c: char| is_key_char(c));
    let a = ws_end(s, k);
    if !(0 <= p < k <= a <= s.len()) {
        Scan::Fail(char_fault(s, p, "expected a key"@))
    } else if a == s.len() || s[a] != '=' {
        Scan::Fail(char_fault(s, a, "expected `=`"@))
    } else {
        proof {
            lemma_ws_end(s, a + 1);
        }
        match value_at(s, ws_end(s, a + 1)) {
            Scan::Done(v, e) => Scan::Done((s.subrange(p, k), v), e),
            Scan::Fail(f) => Scan::Fail(f),
        }
    }
}

/// The cells of a table row from `r`, after those in `acc`; a row ends at a
/// line break, at a comment, or at the end of the input.
pub open spec fn row_cells(s: Seq<char>, r: int, acc: Seq<Node>) -> (Seq<Node>, int)
    decreases s.len() - r,
{
    let r1 = ws_end(s, r);
    if !(0 <= r <= r1 <= s.len()) {
        (acc, r)
    } else if r1 < s.len() && s[r1] == '#' {
        (acc, if r1 + 1 < s.len() { line_end(s, r1 + 1) } else { r1 + 1 })
    } else if newline_end(s, r1) > r1 {
        (acc, newline_end(s, r1))
    } else if r1 == s.len() {
        (acc, r1)
    } else {
        proof {
            lemma_find_from(s, r1, '|');
        }
        row_cells(
            s,
            line_end_of(s, r1, '|'),
            acc.push(Node::Str(trim_end(s.subrange(r1, find_from(s, r1, '|'))))),
        )
    }
}

/// The name of a section header whose `[` is at `p`, and the position after its `]`.
pub open spec fn section_name_at(s: Seq<char>, p: int) -> (Seq<char>, int) {
    let q = ws_end(s, p + 1);
    (s.subrange(q, find_from(s, q, ']')), line_end_of(s, q, ']'))
}

/// The text of a comment whose `#` is at `p`, and the position after its line.
pub open spec fn comment_at(s: Seq<char>, p: int) -> (Seq<char>, int) {
    match slice_through(s, p + 1, '\n') {
        Some((t, e)) => (t, e),
        None => (Seq::empty(), p + 1),
    }
}

/// The first position at or after `i` where `names` holds `name`, or the length.
pub open spec fn first_index(names: Seq<Seq<char>>, name: Seq<char>, i: int) -> int
    decreases names.len() - i,
{
    if 0 <= i < names.len() && names[i] != name {
        first_index(names, name, i + 1)
    } else {
        i
    }
}

/// The next element from `p`. `filter` holds the accepted section names not
/// yet met, or is `None` when every section is accepted; `accepting` is false
/// while the lines of a rejected section are skipped.
pub open spec fn next_at(s: Seq<char>, p: int, filter: Option<Seq<Seq<char>>>, accepting: bool) -> Step
    decreases s.len() - p,
{
    let pw = ws_end(s, p);
    if !(0 <= p <= pw <= s.len()) {
        Step::End
    } else if newline_end(s, pw) > pw {
        next_at(s, newline_end(s, pw), filter, accepting)
    } else if pw == s.len() {
        Step::End
    } else if s[pw] == '[' {
        let (name, pn) = section_name_at(s, pw);
        match filter {
            None => Step::Emit(Elem::Section(name), pn, None),
            Some(rest) => if rest.len() == 0 {
                Step::End
            } else if first_index(rest, name, 0) < rest.len() {
                Step::Emit(Elem::Section(name), pn, Some(rest.remove(first_index(rest, name, 0))))
            } else if pw < line_end(s, pn) <= s.len() {
                next_at(s, line_end(s, pn), filter, false)
            } else {
                Step::End
            },
        }
    } else if !accepting {
        if pw < line_end(s, pw) <= s.len() {
            next_at(s, line_end(s, pw), filter, false)
        } else {
            Step::End
        }
    } else if s[pw] == '|' {
        let (cells, e) = row_cells(s, pw + 1, Seq::empty());
        Step::Emit(Elem::Row(cells), e, filter)
    } else if s[pw] == '#' {
        let (t, e) = comment_at(s, pw);
        Step::Emit(Elem::Comment(t), e, filter)
    } else {
        match entry_at(s, pw) {
            Scan::Done(kv, e) => Step::Emit(Elem::Entry(kv.0, kv.1), e, filter),
            Scan::Fail(f) => Step::Fail(f),
        }
    }
}

/// A section: its dictionary and its rows.
pub struct SectionModel {
    pub dict: Seq<(Seq<char>, Node)>,
    pub rows: Seq<Seq<Node>>,
}

pub open spec fn empty_section() -> SectionModel {
    SectionModel { dict: Seq::empty(), rows: Seq::empty() }
}

/// What assembly has built so far: the finished sections, the section being
/// filled and its name (none before the first header).
pub struct Assembly {
    pub done: Seq<(Seq<char>, SectionModel)>,
    pub current: SectionModel,
    pub name: Option<Seq<char>>,
}

pub open spec fn initial_assembly() -> Assembly {
    Assembly { done: Seq::empty(), current: empty_section(), name: None }
}

/// The sections once the current one is closed. Without a filter, what came
/// before the first header is kept as `root`: always when there was no
/// header at all, and otherwise when it held an entry or a row.
pub open spec fn close_current(a: Assembly, unfiltered: bool, at_end: bool) -> Seq<(Seq<char>, SectionModel)> {
    match a.name {
        Some(n) => map_insert(a.done, n, a.current),
        None => if unfiltered && (at_end || a.current.dict.len() > 0 || a.current.rows.len() > 0) {
            map_insert(a.done, "root"@, a.current)
        } else {
            a.done
        },
    }
}

/// Folds one element into the assembly.
pub open spec fn apply(a: Assembly, e: Elem, unfiltered: bool) -> Assembly {
    match e {
        Elem::Section(n) => Assembly {
            done: close_current(a, unfiltered, false),
            current: empty_section(),
            name: Some(n),
        },
        Elem::Row(r) => Assembly {
            current: SectionModel { rows: a.current.rows.push(r), ..a.current },
            ..a
        },
        Elem::Entry(k, v) => Assembly {
            current: SectionModel { dict: map_insert(a.current.dict, k, v), ..a.current },
            ..a
        },
        Elem::Comment(_) => a,
    }
}

/// The document read from `p` on, given what was assembled before `p`: its
/// sections in name order, or the error that stopped reading.
pub open spec fn assemble(s: Seq<char>, p: int, filter: Option<Seq<Seq<char>>>, unfiltered: bool, a: Assembly) -> Result<
    Seq<(Seq<char>, SectionModel)>,
    Fault,
>
    decreases s.len() - p,
{
    match next_at(s, p, filter, true) {
        Step::End => Ok(close_current(a, unfiltered, true)),
        Step::Fail(f) => Err(f),
        Step::Emit(e, pn, f2) => if p < pn <= s.len() {
            assemble(s, pn, f2, unfiltered, apply(a, e, unfiltered))
        } else {
            Err(no_value_fault(s, p))
        },
    }
}

/// The document that `s` holds, read with the accepted section names
/// `filter` (`None`: every section).
pub open spec fn document(s: Seq<char>, filter: Option<Seq<Seq<char>>>) -> Result<
    Seq<(Seq<char>, SectionModel)>,
    Fault,
> {
    assemble(s, 0, filter, filter is None, initial_assembly())
}

} // verus!
