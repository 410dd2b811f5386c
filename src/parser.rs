//! The scanner: a cursor over the input, the value scanner, the element
//! producer and the document assembler.

use vstd::prelude::*;
use vstd::utf8::encode_utf8;
use vstd::string::StringExecFns;
use crate::grammar::{
    apply, comment_at, array_items, assemble, boolean_at, byte_at, decimal_text, dict_items,
    digits_value, entry_at, find_from, first_index, initial_assembly, is_digit, is_key_char,
    is_white_space, lemma_find_from, lemma_ws_end, line_end, line_end_of, newline_end, next_at,
    char_fault, number_at, row_cells, section_name_at, slice_through, slice_until,
    strip_leading_zeros, strip_trailing_zeros, trim_end, unfinished_fault, value_at, value_start,
    ws_end, Assembly, Elem, Fault, Scan, SectionModel, Step,
};
use crate::section::Section;
use crate::sorted_map::{lemma_insert_map_vals, lemma_map_vals, map_vals, SortedMap};
use crate::text::{chars_of, key_cmp, lemma_run_end, lemma_run_end_unique, push_char, run_end};
use crate::value::{lemma_dict_nodes, nodes_of, Node, rows_nodes, Dictionary, Row, Value};

verus! {

/// A positional error: a byte range of the input and what went wrong there.
#[derive(Clone, Debug)]
pub struct ParserError {
    /// The low byte at which this error is pointing at.
    pub lo: usize,
    /// One byte beyond the last character at which this error is pointing at.
    pub hi: usize,
    /// A human-readable description explaining what the error is.
    pub desc: String,
}

impl ParserError {
    pub open spec fn fault(&self) -> Fault {
        Fault { lo: self.lo as int, hi: self.hi as int, desc: self.desc@ }
    }
}

/// The faults that a list of errors records.
pub open spec fn faults(e: Seq<ParserError>) -> Seq<Fault> {
    e.map_values(|x: ParserError| x.fault())
}

/// The UTF-8 width of a character.
fn utf8_width(c: char) -> (r: usize)
    ensures
        r == vstd::utf8::encode_scalar(c as u32).len(),
{
    let u = c as u32;
    if u < 0x80 {
        1
    } else if u < 0x800 {
        2
    } else if u < 0x10000 {
        3
    } else {
        4
    }
}

proof fn lemma_encode_push(s: Seq<char>, c: char)
    ensures
        encode_utf8(s.push(c)) == encode_utf8(s) + vstd::utf8::encode_scalar(c as u32),
    decreases s.len(),
{
    if s.len() == 0 {
        assert(s =~= Seq::<char>::empty());
        assert(s.push(c).drop_first() =~= Seq::<char>::empty());
        assert(s.push(c)[0] == c);
        assert(encode_utf8(s.push(c)) =~= encode_utf8(s) + vstd::utf8::encode_scalar(c as u32));
    } else {
        assert(s.push(c).drop_first() =~= s.drop_first().push(c));
        lemma_encode_push(s.drop_first(), c);
        assert(encode_utf8(s.push(c)) =~= encode_utf8(s) + vstd::utf8::encode_scalar(c as u32));
    }
}

proof fn lemma_encode_prefix(s: Seq<char>, i: int, j: int)
    requires
        0 <= i <= j <= s.len(),
    ensures
        encode_utf8(s.subrange(0, i)).len() <= encode_utf8(s.subrange(0, j)).len(),
    decreases j - i,
{
    if i < j {
        lemma_encode_prefix(s, i, j - 1);
        assert(s.subrange(0, j) =~= s.subrange(0, j - 1).push(s[j - 1]));
        lemma_encode_push(s.subrange(0, j - 1), s[j - 1]);
    }
}

/// A cursor over ION text and the state of reading it.
pub struct Parser {
    input: Vec<char>,
    pos: usize,
    byte_len: usize,
    failed: bool,
    errors: Vec<ParserError>,
    accepted_sections: Option<Vec<String>>,
    section_capacity: usize,
    row_capacity: usize,
    array_capacity: usize,
}

impl Parser {
    /// The text being read.
    pub closed spec fn text(&self) -> Seq<char> {
        self.input@
    }

    /// The position of the next character to read.
    pub closed spec fn at(&self) -> int {
        self.pos as int
    }

    /// Whether reading stopped on a scan failure.
    pub closed spec fn has_failed(&self) -> bool {
        self.failed
    }

    /// The accepted section names not met yet; `None` when there is no filter.
    pub closed spec fn names_left(&self) -> Option<Seq<Seq<char>>> {
        match self.accepted_sections {
            Some(v) => Some(v@.map_values(|n: String| n@)),
            None => None,
        }
    }

    /// The errors recorded so far.
    pub closed spec fn errs(&self) -> Seq<ParserError> {
        self.errors@
    }

    /// The room given to a new section's rows, a new row's cells and a new array's items.
    pub closed spec fn capacities(&self) -> (usize, usize, usize) {
        (self.section_capacity, self.row_capacity, self.array_capacity)
    }

    /// The errors recorded so far.
    pub fn errors(&self) -> (r: &Vec<ParserError>)
        ensures
            r@ == self.errs(),
    {
        &self.errors
    }

    /// What `same_frame` keeps: the text, the filter, the failed flag and
    /// the capacities.
    pub proof fn lemma_same_frame(&self, o: &Parser)
        requires
            self.same_frame(o),
        ensures
            self.text() == o.text(),
            self.names_left() == o.names_left(),
            self.has_failed() == o.has_failed(),
            self.capacities() == o.capacities(),
    {
    }

    /// What `same_but_pos` keeps: all of `same_frame`, and the errors.
    pub proof fn lemma_same_but_pos(&self, o: &Parser)
        requires
            self.same_but_pos(o),
        ensures
            self.text() == o.text(),
            self.names_left() == o.names_left(),
            self.has_failed() == o.has_failed(),
            self.capacities() == o.capacities(),
            self.errs() == o.errs(),
    {
    }

    /// A well-formed parser's cursor lies within its text.
    pub proof fn lemma_cursor_in_text(&self)
        requires
            self.wf(),
        ensures
            0 <= self.at() <= self.text().len(),
    {
    }

    /// Gives up the parser for the errors it recorded.
    pub fn into_errors(self) -> (r: Vec<ParserError>)
        ensures
            r@ == self.errs(),
    {
        self.errors
    }

    pub closed spec fn wf(&self) -> bool {
        &&& self.pos <= self.input@.len()
        &&& self.byte_len == encode_utf8(self.input@).len()
    }

    /// Everything but the position is as in `o`.
    pub closed spec fn same_but_pos(&self, o: &Parser) -> bool {
        &&& self.same_frame(o)
        &&& self.errors@ == o.errors@
    }

    /// A parser for `s` that accepts every section.
    pub fn new(s: &str) -> (r: Parser)
        ensures
            r.wf(),
            r.text() == s@,
            r.at() == 0,
            r.names_left() is None,
            !r.has_failed(),
            r.errs().len() == 0,
    {
        Self::new_filtered_opt(s, None)
    }

    /// A parser for `s` that accepts only the sections named in `accepted_sections`.
    pub fn new_filtered(s: &str, accepted_sections: Vec<&str>) -> (r: Parser)
        ensures
            r.wf(),
            r.text() == s@,
            r.at() == 0,
            r.names_left() == Some(accepted_sections@.map_values(|n: &str| n@)),
            !r.has_failed(),
            r.errs().len() == 0,
    {
        let mut names: Vec<String> = Vec::new();
        let mut i: usize = 0;
        while i < accepted_sections.len()
            invariant
                i <= accepted_sections@.len(),
                names@.map_values(|n: String| n@) == accepted_sections@.subrange(0, i as int).map_values(
                    |n: &str| n@,
                ),
            decreases accepted_sections@.len() - i,
        {
            let n = accepted_sections[i].to_owned();
            proof {
                assert(accepted_sections@.subrange(0, i + 1) =~= accepted_sections@.subrange(0, i as int).push(accepted_sections@[i as int]));
                assert(names@.push(n).map_values(|n: String| n@) =~= names@.map_values(|n: String| n@).push(n@));
                assert(accepted_sections@.subrange(0, i + 1).map_values(|n: &str| n@) =~= accepted_sections@.subrange(0, i as int).map_values(|n: &str| n@).push(accepted_sections@[i as int]@));
            }
            names.push(n);
            i = i + 1;
        }
        proof {
            assert(accepted_sections@.subrange(0, i as int) =~= accepted_sections@);
        }
        Self::new_filtered_opt(s, Some(names))
    }

    fn new_filtered_opt(s: &str, accepted_sections: Option<Vec<String>>) -> (r: Parser)
        ensures
            r.wf(),
            r.text() == s@,
            r.at() == 0,
            r.accepted_sections == accepted_sections,
            !r.has_failed(),
            r.errs().len() == 0,
    {
        Parser {
            input: chars_of(s),
            pos: 0,
            byte_len: s.as_bytes().len(),
            failed: false,
            errors: Vec::new(),
            accepted_sections,
            section_capacity: 16,
            row_capacity: 8,
            array_capacity: 2,
        }
    }

    /// Sets how many rows a new section has room for.
    pub fn with_section_capacity(self, section_capacity: usize) -> (r: Self)
        ensures
            r.capacities().0 == section_capacity,
            r.capacities().1 == self.capacities().1,
            r.capacities().2 == self.capacities().2,
            r.text() == self.text(),
            r.at() == self.at(),
            r.names_left() == self.names_left(),
            r.errs() == self.errs(),
            r.has_failed() == self.has_failed(),
            r.wf() == self.wf(),
    {
        Parser { section_capacity, ..self }
    }

    /// Sets how many cells a new row has room for.
    pub fn with_row_capacity(self, row_capacity: usize) -> (r: Self)
        ensures
            r.capacities().1 == row_capacity,
            r.capacities().0 == self.capacities().0,
            r.capacities().2 == self.capacities().2,
            r.text() == self.text(),
            r.at() == self.at(),
            r.names_left() == self.names_left(),
            r.errs() == self.errs(),
            r.has_failed() == self.has_failed(),
            r.wf() == self.wf(),
    {
        Parser { row_capacity, ..self }
    }

    /// Sets how many items a new array has room for.
    pub fn with_array_capacity(self, array_capacity: usize) -> (r: Self)
        ensures
            r.capacities().2 == array_capacity,
            r.capacities().0 == self.capacities().0,
            r.capacities().1 == self.capacities().1,
            r.text() == self.text(),
            r.at() == self.at(),
            r.names_left() == self.names_left(),
            r.errs() == self.errs(),
            r.has_failed() == self.has_failed(),
            r.wf() == self.wf(),
    {
        Parser { array_capacity, ..self }
    }

    /// The byte offset of character position `i`.
    fn byte_offset(&self, i: usize) -> (r: usize)
        requires
            self.wf(),
            i <= self.input@.len(),
        ensures
            r == byte_at(self.input@, i as int),
    {
        let mut k: usize = 0;
        let mut b: usize = 0;
        proof {
            assert(self.input@.subrange(0, 0) =~= Seq::<char>::empty());
        }
        while k < i
            invariant
                self.wf(),
                k <= i <= self.input@.len(),
                b == byte_at(self.input@, k as int),
            decreases i - k,
        {
            proof {
                assert(self.input@.subrange(0, k + 1) =~= self.input@.subrange(0, k as int).push(self.input@[k as int]));
                lemma_encode_push(self.input@.subrange(0, k as int), self.input@[k as int]);
                lemma_encode_prefix(self.input@, k + 1, self.input@.len() as int);
                assert(self.input@.subrange(0, self.input@.len() as int) =~= self.input@);
            }
            b = b + utf8_width(self.input[k]);
            k = k + 1;
        }
        b
    }

    /// The `n`th character ahead and its byte offset, without consuming anything.
    pub fn peek(&self, n: usize) -> (r: Option<(usize, char)>)
        requires
            self.wf(),
        ensures
            self.at() + n < self.text().len() ==> r == Some(
                (byte_at(self.text(), self.at() + n) as usize, self.text()[self.at() + n]),
            ),
            self.at() + n >= self.text().len() ==> r is None,
    {
        if n < self.input.len() - self.pos {
            let i = self.pos + n;
            Some((self.byte_offset(i), self.input[i]))
        } else {
            None
        }
    }

    /// Consumes the next character and hands it back with its byte offset.
    pub fn next_char(&mut self) -> (r: Option<(usize, char)>)
        requires
            old(self).wf(),
        ensures
            final(self).wf(),
            final(self).same_but_pos(old(self)),
            final(self).text() == old(self).text(),
            final(self).names_left() == old(self).names_left(),
            final(self).has_failed() == old(self).has_failed(),
            final(self).errs() == old(self).errs(),
            old(self).at() < old(self).text().len() ==> r == Some(
                (byte_at(old(self).text(), old(self).at() as int) as usize, old(self).text()[old(self).at() as int]),
            ) && final(self).at() == old(self).at() + 1,
            old(self).at() >= old(self).text().len() ==> r is None && final(self).at() == old(self).at(),
    {
        let r = self.peek(0);
        if self.pos < self.input.len() {
            self.pos = self.pos + 1;
        }
        r
    }

    fn peek_char(&self) -> (r: Option<char>)
        requires
            self.wf(),
        ensures
            self.pos < self.input@.len() ==> r == Some(self.input@[self.pos as int]),
            self.pos >= self.input@.len() ==> r is None,
    {
        if self.pos < self.input.len() {
            Some(self.input[self.pos])
        } else {
            None
        }
    }

    /// Consumes `ch` if it comes next.
    pub fn eat(&mut self, ch: char) -> (r: bool)
        requires
            old(self).wf(),
        ensures
            final(self).wf(),
            final(self).same_but_pos(old(self)),
            final(self).text() == old(self).text(),
            final(self).names_left() == old(self).names_left(),
            final(self).has_failed() == old(self).has_failed(),
            final(self).errs() == old(self).errs(),
            r == (old(self).at() < old(self).text().len() && old(self).text()[old(self).at() as int] == ch),
            final(self).at() == old(self).at() + if r { 1int } else { 0 },
    {
        if self.pos < self.input.len() && self.input[self.pos] == ch {
            self.pos = self.pos + 1;
            true
        } else {
            false
        }
    }

    /// Consumes a run of spaces and tabs; true if there was one.
    pub fn ws(&mut self) -> (r: bool)
        requires
            old(self).wf(),
        ensures
            final(self).wf(),
            final(self).same_but_pos(old(self)),
            final(self).text() == old(self).text(),
            final(self).names_left() == old(self).names_left(),
            final(self).has_failed() == old(self).has_failed(),
            final(self).errs() == old(self).errs(),
            final(self).at() == ws_end(old(self).text(), old(self).at() as int),
            r == (final(self).at() > old(self).at()),
    {
        let start = self.pos;
        while self.pos < self.input.len() && (self.input[self.pos] == ' ' || self.input[self.pos] == '\t')
            invariant
                self.wf(),
                self.same_but_pos(old(self)),
                start == old(self).at(),
                start <= self.pos <= self.input@.len(),
                ws_end(self.input@, self.pos as int) == ws_end(self.input@, start as int),
            decreases self.input@.len() - self.pos,
        {
            self.pos = self.pos + 1;
        }
        self.pos > start
    }

    /// Consumes a line break, `\n` or `\r\n`; true if there was one.
    pub fn newline(&mut self) -> (r: bool)
        requires
            old(self).wf(),
        ensures
            final(self).wf(),
            final(self).same_but_pos(old(self)),
            final(self).text() == old(self).text(),
            final(self).names_left() == old(self).names_left(),
            final(self).has_failed() == old(self).has_failed(),
            final(self).errs() == old(self).errs(),
            final(self).at() == newline_end(old(self).text(), old(self).at() as int),
            r == (final(self).at() > old(self).at()),
    {
        let n = self.input.len();
        if self.pos < n && self.input[self.pos] == '\n' {
            self.pos = self.pos + 1;
            true
        } else if n - self.pos >= 2 && self.input[self.pos] == '\r' && self.input[self.pos + 1] == '\n' {
            self.pos = self.pos + 2;
            true
        } else {
            false
        }
    }

    /// The first position at or after the cursor that holds `ch`, or the end.
    fn find(&self, ch: char) -> (r: usize)
        requires
            self.wf(),
        ensures
            r == find_from(self.input@, self.pos as int, ch),
    {
        let mut i = self.pos;
        while i < self.input.len() && self.input[i] != ch
            invariant
                self.wf(),
                self.pos <= i <= self.input@.len(),
                find_from(self.input@, i as int, ch) == find_from(self.input@, self.pos as int, ch),
            decreases self.input@.len() - i,
        {
            i = i + 1;
        }
        i
    }

    /// The characters from `lo` up to `hi`, as a string.
    fn copy_range(&self, lo: usize, hi: usize) -> (r: String)
        requires
            lo <= hi <= self.input@.len(),
        ensures
            r@ == self.input@.subrange(lo as int, hi as int),
    {
        let mut r = String::new();
        let mut i = lo;
        while i < hi
            invariant
                lo <= i <= hi <= self.input@.len(),
                r@ == self.input@.subrange(lo as int, i as int),
            decreases hi - i,
        {
            proof {
                assert(self.input@.subrange(lo as int, i + 1) =~= self.input@.subrange(lo as int, i as int).push(self.input@[i as int]));
            }
            push_char(&mut r, self.input[i]);
            i = i + 1;
        }
        r
    }

    /// Discards the rest of the line, its `\n` included.
    pub fn skip_line(&mut self)
        requires
            old(self).wf(),
        ensures
            final(self).wf(),
            final(self).same_but_pos(old(self)),
            final(self).text() == old(self).text(),
            final(self).names_left() == old(self).names_left(),
            final(self).has_failed() == old(self).has_failed(),
            final(self).errs() == old(self).errs(),
            final(self).at() == line_end(old(self).text(), old(self).at() as int),
    {
        proof {
            lemma_find_from(self.input@, self.pos as int, '\n');
        }
        let e = self.find('\n');
        self.pos = if e < self.input.len() { e + 1 } else { e };
    }

    /// Consumes the text through the first `ch` and hands it back, `ch` included;
    /// `None` only at the end of the input.
    pub fn slice_to_inc(&mut self, ch: char) -> (r: Option<String>)
        requires
            old(self).wf(),
        ensures
            final(self).wf(),
            final(self).same_but_pos(old(self)),
            final(self).text() == old(self).text(),
            final(self).names_left() == old(self).names_left(),
            final(self).has_failed() == old(self).has_failed(),
            final(self).errs() == old(self).errs(),
            match slice_through(old(self).text(), old(self).at() as int, ch) {
                Some((t, e)) => r matches Some(x) && x@ == t && final(self).at() == e,
                None => r is None && final(self).at() == old(self).at(),
            },
    {
        if self.pos >= self.input.len() {
            return None;
        }
        proof {
            lemma_find_from(self.input@, self.pos as int, ch);
        }
        let e = self.find(ch);
        let end = if e < self.input.len() { e + 1 } else { e };
        let t = self.copy_range(self.pos, end);
        self.pos = end;
        Some(t)
    }

    /// Consumes the text through the first `ch` and hands back what stands
    /// before it; `None` only at the end of the input.
    pub fn slice_to_exc(&mut self, ch: char) -> (r: Option<String>)
        requires
            old(self).wf(),
        ensures
            final(self).wf(),
            final(self).same_but_pos(old(self)),
            final(self).text() == old(self).text(),
            final(self).names_left() == old(self).names_left(),
            final(self).has_failed() == old(self).has_failed(),
            final(self).errs() == old(self).errs(),
            match slice_until(old(self).text(), old(self).at() as int, ch) {
                Some((t, e)) => r matches Some(x) && x@ == t && final(self).at() == e,
                None => r is None && final(self).at() == old(self).at(),
            },
    {
        if self.pos >= self.input.len() {
            return None;
        }
        proof {
            lemma_find_from(self.input@, self.pos as int, ch);
        }
        let e = self.find(ch);
        let end = if e < self.input.len() { e + 1 } else { e };
        let t = self.copy_range(self.pos, e);
        self.pos = end;
        Some(t)
    }

    /// Consumes the longest run of characters that satisfy `predicate` and
    /// hands it back; `None` when the next character fails it or there is none.
    pub fn slice_while<F: Fn(char) -> bool>(&mut self, predicate: F) -> (r: Option<String>)
        requires
            old(self).wf(),
            forall|c: char| predicate.requires((c,)),
        ensures
            final(self).wf(),
            final(self).same_but_pos(old(self)),
            final(self).text() == old(self).text(),
            final(self).names_left() == old(self).names_left(),
            final(self).has_failed() == old(self).has_failed(),
            final(self).errs() == old(self).errs(),
            old(self).at() <= final(self).at(),
            forall|i: int|
                old(self).at() <= i < final(self).at() ==> predicate.ensures((old(self).text()[i],), true),
            final(self).at() < old(self).text().len() ==> predicate.ensures(
                (old(self).text()[final(self).at() as int],),
                false,
            ),
            r is None <==> final(self).at() == old(self).at(),
            old(self).at() >= old(self).text().len() ==> r is None,
            r matches Some(t) ==> t@ == old(self).text().subrange(old(self).at() as int, final(self).at() as int),
    {
        let start = self.pos;
        while self.pos < self.input.len() && predicate(self.input[self.pos])
            invariant
                self.wf(),
                self.same_but_pos(old(self)),
                start == old(self).at(),
                start <= self.pos <= self.input@.len(),
                forall|c: char| predicate.requires((c,)),
                forall|i: int| start <= i < self.pos ==> predicate.ensures((self.input@[i],), true),
            decreases self.input@.len() - self.pos,
        {
            self.pos = self.pos + 1;
        }
        if self.pos == start {
            None
        } else {
            Some(self.copy_range(start, self.pos))
        }
    }
}

} // verus!

verus! {

/// The text of an optional string.
pub open spec fn opt_view(o: Option<String>) -> Option<Seq<char>> {
    match o {
        Some(n) => Some(n@),
        None => None,
    }
}

/// Whether `ch` may stand in a key.
fn key_char(ch: char) -> (r: bool)
    ensures
        r == is_key_char(ch),
{
    ('a' <= ch && ch <= 'z') || ('A' <= ch && ch <= 'Z') || ('0' <= ch && ch <= '9') || ch == '_'
        || ch == '-'
}

/// Unicode `White_Space`, as `char::is_whitespace` has it.
fn is_white_space_char(c: char) -> (r: bool)
    ensures
        r == is_white_space(c),
{
    ('\u{9}' <= c && c <= '\u{d}') || c == ' ' || c == '\u{85}' || c == '\u{a0}' || c == '\u{1680}'
        || ('\u{2000}' <= c && c <= '\u{200a}') || c == '\u{2028}' || c == '\u{2029}' || c
        == '\u{202f}' || c == '\u{205f}' || c == '\u{3000}'
}

pub proof fn lemma_digits_nonneg(d: Seq<char>)
    requires
        forall|i: int| 0 <= i < d.len() ==> is_digit(#[trigger] d[i]),
    ensures
        digits_value(d) >= 0,
    decreases d.len(),
{
    if d.len() > 0 {
        lemma_digits_nonneg(d.drop_last());
    }
}

/// A longer run of digits is worth at least as much.
proof fn lemma_digits_mono(s: Seq<char>, lo: int, i: int, j: int)
    requires
        0 <= lo <= i <= j <= s.len(),
        forall|k: int| lo <= k < j ==> is_digit(#[trigger] s[k]),
    ensures
        digits_value(s.subrange(lo, i)) <= digits_value(s.subrange(lo, j)),
    decreases j - i,
{
    if i < j {
        lemma_digits_mono(s, lo, i, j - 1);
        assert(s.subrange(lo, j).drop_last() =~= s.subrange(lo, j - 1));
        lemma_digits_nonneg(s.subrange(lo, j - 1));
    }
}

/// One structural element of a document.
#[derive(Debug, PartialEq)]
pub enum Element {
    Section(String),
    Row(Vec<Value>),
    Entry(String, Value),
    Comment(String),
}

impl Element {
    pub open spec fn elem(&self) -> Elem {
        match self {
            Element::Section(n) => Elem::Section(n@),
            Element::Row(r) => Elem::Row(nodes_of(r@)),
            Element::Entry(k, v) => Elem::Entry(k@, v.node()),
            Element::Comment(t) => Elem::Comment(t@),
        }
    }
}

impl Parser {
    /// Everything but the position and the errors is as in `o`.
    pub closed spec fn same_frame(&self, o: &Parser) -> bool {
        &&& self.input@ == o.input@
        &&& self.byte_len == o.byte_len
        &&& self.failed == o.failed
        &&& self.accepted_sections == o.accepted_sections
        &&& self.capacities() == o.capacities()
    }

    /// Appends the characters from `lo` up to `hi` to `out`.
    fn append_range(&self, out: &mut String, lo: usize, hi: usize)
        requires
            lo <= hi <= self.input@.len(),
        ensures
            final(out)@ == old(out)@ + self.input@.subrange(lo as int, hi as int),
    {
        let mut i = lo;
        while i < hi
            invariant
                lo <= i <= hi <= self.input@.len(),
                out@ == old(out)@ + self.input@.subrange(lo as int, i as int),
            decreases hi - i,
        {
            proof {
                assert(self.input@.subrange(lo as int, i + 1) =~= self.input@.subrange(lo as int, i as int).push(self.input@[i as int]));
                assert(old(out)@ + self.input@.subrange(lo as int, i + 1) =~= (old(out)@ + self.input@.subrange(lo as int, i as int)).push(self.input@[i as int]));
            }
            push_char(out, self.input[i]);
            i = i + 1;
        }
    }

    /// Records the error `desc` over the character at `q`.
    fn fail_at(&mut self, q: usize, desc: &str)
        requires
            old(self).wf(),
            q <= old(self).input@.len(),
        ensures
            final(self).wf(),
            final(self).same_frame(old(self)),
            final(self).text() == old(self).text(),
            final(self).names_left() == old(self).names_left(),
            final(self).has_failed() == old(self).has_failed(),
            final(self).pos == old(self).pos,
            faults(final(self).errs()) == faults(old(self).errs()).push(char_fault(old(self).text(), q as int, desc@)),
    {
        let n = self.input.len();
        let lo = self.byte_offset(if q < n { q } else { n });
        let hi = self.byte_offset(if n - q > 1 { q + 1 } else { n });
        let e = ParserError { lo, hi, desc: String::from_str(desc) };
        proof {
            assert(faults(self.errors@.push(e)) =~= faults(self.errors@).push(e.fault()));
        }
        self.errors.push(e);
    }

    /// Records that the input ended inside a composite value.
    fn fail_unfinished(&mut self, desc: &str)
        requires
            old(self).wf(),
        ensures
            final(self).wf(),
            final(self).same_frame(old(self)),
            final(self).text() == old(self).text(),
            final(self).names_left() == old(self).names_left(),
            final(self).has_failed() == old(self).has_failed(),
            final(self).pos == old(self).pos,
            faults(final(self).errs()) == faults(old(self).errs()).push(unfinished_fault(old(self).text(), desc@)),
    {
        let n = self.input.len();
        let b = self.byte_offset(n);
        let e = ParserError { lo: b, hi: b, desc: String::from_str(desc) };
        proof {
            assert(faults(self.errors@.push(e)) =~= faults(self.errors@).push(e.fault()));
        }
        self.errors.push(e);
    }

    /// Moves the cursor past a run of digits.
    fn skip_digits(&mut self)
        requires
            old(self).wf(),
        ensures
            final(self).wf(),
            final(self).same_but_pos(old(self)),
            final(self).text() == old(self).text(),
            final(self).names_left() == old(self).names_left(),
            final(self).has_failed() == old(self).has_failed(),
            final(self).errs() == old(self).errs(),
            final(self).pos == run_end(old(self).input@, old(self).pos as int, |c: char| is_digit(c)),
    {
        let start = self.pos;
        while self.pos < self.input.len() && '0' <= self.input[self.pos] && self.input[self.pos] <= '9'
            invariant
                self.wf(),
                self.same_but_pos(old(self)),
                start == old(self).pos,
                start <= self.pos <= self.input@.len(),
                run_end(self.input@, self.pos as int, |c: char| is_digit(c)) == run_end(
                    self.input@,
                    start as int,
                    |c: char| is_digit(c),
                ),
            decreases self.input@.len() - self.pos,
        {
            self.pos = self.pos + 1;
        }
    }

    /// The value of the digits from `lo` up to `hi`, if it fits in an `i64`.
    fn digits_i64(&self, lo: usize, hi: usize) -> (r: Option<i64>)
        requires
            lo <= hi <= self.input@.len(),
            forall|k: int| lo <= k < hi ==> is_digit(#[trigger] self.input@[k]),
        ensures
            match r {
                Some(n) => n as int == digits_value(self.input@.subrange(lo as int, hi as int)),
                None => digits_value(self.input@.subrange(lo as int, hi as int)) > i64::MAX,
            },
    {
        let mut v: i64 = 0;
        let mut i = lo;
        proof {
            assert(self.input@.subrange(lo as int, lo as int) =~= Seq::<char>::empty());
        }
        while i < hi
            invariant
                lo <= i <= hi <= self.input@.len(),
                forall|k: int| lo <= k < hi ==> is_digit(#[trigger] self.input@[k]),
                v as int == digits_value(self.input@.subrange(lo as int, i as int)),
                v >= 0,
            decreases hi - i,
        {
            let d = (self.input[i] as u32 - '0' as u32) as i64;
            proof {
                assert(self.input@.subrange(lo as int, i + 1).drop_last() =~= self.input@.subrange(lo as int, i as int));
                assert(is_digit(self.input@[i as int]));
            }
            if v > (i64::MAX - d) / 10 {
                proof {
                    assert(v * 10 + d > i64::MAX) by (nonlinear_arith)
                        requires
                            v > (i64::MAX - d) / 10,
                            0 <= d <= 9,
                    ;
                    lemma_digits_mono(self.input@, lo as int, i + 1, hi as int);
                }
                return None;
            }
            proof {
                assert(v * 10 + d <= i64::MAX) by (nonlinear_arith)
                    requires
                        v <= (i64::MAX - d) / 10,
                        0 <= d <= 9,
                        v >= 0,
                ;
            }
            v = v * 10 + d;
            i = i + 1;
        }
        Some(v)
    }

    /// The canonical text of the decimal whose whole part runs from `lo` up
    /// to `mid` and whose fraction runs from `mid + 1` up to `hi`.
    fn decimal(&self, lo: usize, mid: usize, hi: usize) -> (r: String)
        requires
            lo < mid < hi <= self.input@.len(),
        ensures
            r@ == decimal_text(
                self.input@.subrange(lo as int, mid as int),
                self.input@.subrange(mid + 1, hi as int),
            ),
    {
        let ghost s = self.input@;
        let mut w = lo;
        while mid - w > 1 && self.input[w] == '0'
            invariant
                lo <= w < mid < hi <= s.len(),
                s == self.input@,
                strip_leading_zeros(s.subrange(w as int, mid as int)) == strip_leading_zeros(
                    s.subrange(lo as int, mid as int),
                ),
            decreases mid - w,
        {
            proof {
                assert(s.subrange(w as int, mid as int).drop_first() =~= s.subrange(w + 1, mid as int));
            }
            w = w + 1;
        }
        let mut f = hi;
        while f > mid + 1 && self.input[f - 1] == '0'
            invariant
                lo <= w < mid < f <= hi <= s.len(),
                s == self.input@,
                strip_trailing_zeros(s.subrange(mid + 1, f as int)) == strip_trailing_zeros(
                    s.subrange(mid + 1, hi as int),
                ),
            decreases f,
        {
            proof {
                assert(s.subrange(mid + 1, f as int).drop_last() =~= s.subrange(mid + 1, f - 1));
            }
            f = f - 1;
        }
        let mut r = String::new();
        self.append_range(&mut r, w, mid);
        if f > mid + 1 {
            push_char(&mut r, '.');
            self.append_range(&mut r, mid + 1, f);
        }
        proof {
            assert(Seq::<char>::empty() + s.subrange(w as int, mid as int) =~= s.subrange(w as int, mid as int));
            if f > mid + 1 {
                assert(s.subrange(w as int, mid as int).push('.') =~= s.subrange(w as int, mid as int) + seq!['.']);
            } else {
                assert(s.subrange(mid + 1, f as int) =~= Seq::<char>::empty());
            }
        }
        r
    }

    /// A number at the cursor, which holds a digit.
    fn number(&mut self) -> (r: Option<Value>)
        requires
            old(self).wf(),
            old(self).pos < old(self).input@.len(),
            is_digit(old(self).input@[old(self).pos as int]),
        ensures
            final(self).wf(),
            final(self).same_frame(old(self)),
            final(self).text() == old(self).text(),
            final(self).names_left() == old(self).names_left(),
            final(self).has_failed() == old(self).has_failed(),
            match number_at(old(self).text(), old(self).pos as int) {
                Scan::Done(v, e) => r matches Some(x) && x.node() == v && final(self).pos == e
                    && final(self).errs() == old(self).errs(),
                Scan::Fail(f) => r is None && faults(final(self).errs()) == faults(old(self).errs()).push(f),
            },
            r is Some ==> final(self).pos > old(self).pos,
    {
        let ghost s = self.input@;
        let q = self.pos;
        self.skip_digits();
        let d1 = self.pos;
        proof {
            lemma_run_end(s, q as int, |c: char| is_digit(c));
        }
        if d1 < self.input.len() && self.input[d1] == '.' {
            self.pos = d1 + 1;
            self.skip_digits();
            let d2 = self.pos;
            proof {
                lemma_run_end(s, d1 + 1, |c: char| is_digit(c));
            }
            if d2 == d1 + 1 {
                self.fail_at(q, "expected a value");
                return None;
            }
            Some(Value::Float(self.decimal(q, d1, d2)))
        } else {
            match self.digits_i64(q, d1) {
                Some(n) => Some(Value::Integer(n)),
                None => {
                    self.fail_at(q, "expected a value");
                    None
                },
            }
        }
    }

    /// `true` or `false` at the cursor.
    fn boolean(&mut self) -> (r: Option<Value>)
        requires
            old(self).wf(),
            old(self).pos < old(self).input@.len(),
        ensures
            final(self).wf(),
            final(self).same_frame(old(self)),
            final(self).text() == old(self).text(),
            final(self).names_left() == old(self).names_left(),
            final(self).has_failed() == old(self).has_failed(),
            match boolean_at(old(self).text(), old(self).pos as int) {
                Scan::Done(v, e) => r matches Some(x) && x.node() == v && final(self).pos == e
                    && final(self).errs() == old(self).errs(),
                Scan::Fail(f) => r is None && final(self).pos == old(self).pos && faults(final(self).errs())
                    == faults(old(self).errs()).push(f),
            },
            r is Some ==> final(self).pos > old(self).pos,
    {
        let ghost s = self.input@;
        let q = self.pos;
        let n = self.input.len();
        proof {
            reveal_strlit("true");
            reveal_strlit("false");
        }
        if n - q >= 4 && self.input[q] == 't' && self.input[q + 1] == 'r' && self.input[q + 2] == 'u'
            && self.input[q + 3] == 'e' {
            proof {
                assert(s.subrange(q as int, q + 4) =~= "true"@);
            }
            self.pos = q + 4;
            return Some(Value::Boolean(true));
        }
        proof {
            if q + 4 <= s.len() && s.subrange(q as int, q + 4) == "true"@ {
                assert(s.subrange(q as int, q + 4)[0] == 't');
                assert(s.subrange(q as int, q + 4)[1] == 'r');
                assert(s.subrange(q as int, q + 4)[2] == 'u');
                assert(s.subrange(q as int, q + 4)[3] == 'e');
            }
        }
        if n - q >= 5 && self.input[q] == 'f' && self.input[q + 1] == 'a' && self.input[q + 2] == 'l'
            && self.input[q + 3] == 's' && self.input[q + 4] == 'e' {
            proof {
                assert(s.subrange(q as int, q + 5) =~= "false"@);
            }
            self.pos = q + 5;
            return Some(Value::Boolean(false));
        }
        proof {
            if q + 5 <= s.len() && s.subrange(q as int, q + 5) == "false"@ {
                assert(s.subrange(q as int, q + 5)[0] == 'f');
                assert(s.subrange(q as int, q + 5)[1] == 'a');
                assert(s.subrange(q as int, q + 5)[2] == 'l');
                assert(s.subrange(q as int, q + 5)[3] == 's');
                assert(s.subrange(q as int, q + 5)[4] == 'e');
            }
        }
        self.fail_at(q, "expected a value");
        None
    }

    /// A key at the cursor: the longest run of key characters.
    fn key_name(&mut self) -> (r: Option<String>)
        requires
            old(self).wf(),
        ensures
            final(self).wf(),
            final(self).same_frame(old(self)),
            final(self).text() == old(self).text(),
            final(self).names_left() == old(self).names_left(),
            final(self).has_failed() == old(self).has_failed(),
            final(self).errs() == old(self).errs(),
            final(self).pos == run_end(old(self).text(), old(self).pos as int, |c: char| is_key_char(c)),
            r is None <==> final(self).pos == old(self).pos,
            r matches Some(t) ==> t@ == old(self).text().subrange(old(self).pos as int, final(self).pos as int),
    {
        let r = self.slice_while(key_char);
        proof {
            lemma_run_end_unique(old(self).input@, old(self).pos as int, self.pos as int, |c: char| is_key_char(c));
        }
        r
    }

    /// The `=` between a key and its value, with the blanks around it.
    fn keyval_sep(&mut self) -> (r: bool)
        requires
            old(self).wf(),
        ensures
            final(self).wf(),
            final(self).same_frame(old(self)),
            final(self).text() == old(self).text(),
            final(self).names_left() == old(self).names_left(),
            final(self).has_failed() == old(self).has_failed(),
            final(self).errs() == old(self).errs(),
            ({
                let a = ws_end(old(self).text(), old(self).pos as int);
                r == (a < old(self).text().len() && old(self).text()[a] == '=') && (r ==> final(self).pos
                    == ws_end(old(self).text(), a + 1)) && (!r ==> final(self).pos == a)
            }),
    {
        self.ws();
        if !self.expect('=') {
            return false;
        }
        self.ws();
        true
    }

    /// Consumes `ch` if it comes next.
    fn expect(&mut self, ch: char) -> (r: bool)
        requires
            old(self).wf(),
        ensures
            final(self).wf(),
            final(self).same_but_pos(old(self)),
            final(self).text() == old(self).text(),
            final(self).names_left() == old(self).names_left(),
            final(self).has_failed() == old(self).has_failed(),
            final(self).errs() == old(self).errs(),
            r == (old(self).pos < old(self).text().len() && old(self).text()[old(self).pos as int] == ch),
            final(self).pos == old(self).pos + if r { 1int } else { 0 },
    {
        self.eat(ch)
    }

    /// A value at or after the cursor.
    pub fn value(&mut self) -> (r: Option<Value>)
        requires
            old(self).wf(),
        ensures
            final(self).wf(),
            final(self).same_frame(old(self)),
            final(self).text() == old(self).text(),
            final(self).names_left() == old(self).names_left(),
            final(self).has_failed() == old(self).has_failed(),
            match value_at(old(self).text(), old(self).at()) {
                Scan::Done(v, e) => r matches Some(x) && x.node() == v && final(self).at() == e
                    && final(self).errs() == old(self).errs(),
                Scan::Fail(f) => r is None && faults(final(self).errs()) == faults(old(self).errs()).push(f),
            },
            r is Some ==> final(self).at() > old(self).at(),
        decreases old(self).text().len() - old(self).at(), 0int,
    {
        let ghost s = self.input@;
        let ghost p = self.pos as int;
        self.ws();
        proof {
            lemma_ws_end(s, p);
        }
        self.newline();
        let ghost pn = self.pos as int;
        self.ws();
        proof {
            lemma_ws_end(s, pn);
            assert(self.pos == value_start(s, p));
        }
        let q = self.pos;
        if q >= self.input.len() {
            self.fail_at(q, "expected a value");
            return None;
        }
        let c = self.input[q];
        if c == '"' {
            self.pos = q + 1;
            match self.slice_to_exc('"') {
                Some(t) => {
                    proof {
                        lemma_find_from(s, q + 1, '"');
                    }
                    Some(Value::String(t))
                },
                None => {
                    self.fail_at(q, "expected a value");
                    None
                },
            }
        } else if c == '[' {
            self.pos = q + 1;
            self.finish_array()
        } else if c == '{' {
            self.pos = q + 1;
            self.finish_dictionary()
        } else if '0' <= c && c <= '9' {
            self.number()
        } else if c == 't' || c == 'f' {
            self.boolean()
        } else {
            self.fail_at(q, "expected a value");
            None
        }
    }

    /// The rest of an array whose `[` the cursor has just passed.
    fn finish_array(&mut self) -> (r: Option<Value>)
        requires
            old(self).wf(),
            old(self).pos > 0,
        ensures
            final(self).wf(),
            final(self).same_frame(old(self)),
            final(self).text() == old(self).text(),
            final(self).names_left() == old(self).names_left(),
            final(self).has_failed() == old(self).has_failed(),
            match array_items(old(self).text(), old(self).pos as int, Seq::empty()) {
                Scan::Done(v, e) => r matches Some(x) && x.node() == v && final(self).pos == e
                    && final(self).errs() == old(self).errs(),
                Scan::Fail(f) => r is None && faults(final(self).errs()) == faults(old(self).errs()).push(f),
            },
            r is Some ==> final(self).pos > old(self).pos,
        decreases old(self).input@.len() - old(self).pos, 1int,
    {
        let ghost s = self.input@;
        let start = self.pos;
        let mut row: Vec<Value> = Vec::with_capacity(self.array_capacity);
        proof {
            assert(nodes_of(row@) =~= Seq::<Node>::empty());
        }
        loop
            invariant
                self.wf(),
                self.same_frame(old(self)),
                self.errs() == old(self).errs(),
                s == self.input@,
                start == old(self).pos,
                start <= self.pos <= s.len(),
                array_items(s, self.pos as int, nodes_of(row@)) == array_items(s, start as int, Seq::empty()),
            decreases s.len() - self.pos,
        {
            let ghost r0 = self.pos as int;
            self.ws();
            proof {
                lemma_ws_end(s, r0);
            }
            if self.pos >= self.input.len() {
                self.fail_unfinished("Cannot finish an array");
                return None;
            }
            let c = self.input[self.pos];
            if c == ']' {
                self.pos = self.pos + 1;
                return Some(Value::Array(row));
            }
            if c == ',' {
                self.pos = self.pos + 1;
                continue;
            }
            match self.value() {
                Some(v) => {
                    proof {
                        assert(row@.push(v).drop_last() =~= row@);
                    }
                    row.push(v);
                },
                None => return None,
            }
        }
    }

    /// The rest of a dictionary whose `{` the cursor has just passed.
    fn finish_dictionary(&mut self) -> (r: Option<Value>)
        requires
            old(self).wf(),
            old(self).pos > 0,
        ensures
            final(self).wf(),
            final(self).same_frame(old(self)),
            final(self).text() == old(self).text(),
            final(self).names_left() == old(self).names_left(),
            final(self).has_failed() == old(self).has_failed(),
            match dict_items(old(self).text(), old(self).pos as int, Seq::empty()) {
                Scan::Done(v, e) => r matches Some(x) && x.node() == v && final(self).pos == e
                    && final(self).errs() == old(self).errs(),
                Scan::Fail(f) => r is None && faults(final(self).errs()) == faults(old(self).errs()).push(f),
            },
            r is Some ==> final(self).pos > old(self).pos,
        decreases old(self).input@.len() - old(self).pos, 2int,
    {
        let ghost s = self.input@;
        let start = self.pos;
        let mut map: Dictionary = SortedMap::new();
        proof {
            assert(map_vals(map.spec_entries(), |v: Value| v.node()) =~= Seq::<(Seq<char>, Node)>::empty());
        }
        loop
            invariant
                self.wf(),
                self.same_frame(old(self)),
                self.errs() == old(self).errs(),
                s == self.input@,
                start == old(self).pos,
                start <= self.pos <= s.len(),
                dict_items(s, self.pos as int, map_vals(map.spec_entries(), |v: Value| v.node()))
                    == dict_items(s, start as int, Seq::empty()),
            decreases s.len() - self.pos,
        {
            let ghost r0 = self.pos as int;
            self.ws();
            proof {
                lemma_ws_end(s, r0);
            }
            if self.pos >= self.input.len() {
                self.fail_unfinished("Cannot finish a dictionary");
                return None;
            }
            let c = self.input[self.pos];
            if c == '}' {
                self.pos = self.pos + 1;
                proof {
                    lemma_dict_nodes(&map);
                }
                return Some(Value::Dictionary(map));
            }
            if c == ',' || c == '\n' {
                self.pos = self.pos + 1;
                continue;
            }
            match self.entry() {
                Some((k, v)) => {
                    proof {
                        lemma_insert_map_vals(map.spec_entries(), k@, v, |v: Value| v.node());
                    }
                    map.insert(k, v);
                },
                None => return None,
            }
        }
    }

    /// An entry `key = value` at the cursor.
    fn entry(&mut self) -> (r: Option<(String, Value)>)
        requires
            old(self).wf(),
        ensures
            final(self).wf(),
            final(self).same_frame(old(self)),
            final(self).text() == old(self).text(),
            final(self).names_left() == old(self).names_left(),
            final(self).has_failed() == old(self).has_failed(),
            match entry_at(old(self).text(), old(self).pos as int) {
                Scan::Done(kv, e) => r matches Some(x) && x.0@ == kv.0 && x.1.node() == kv.1
                    && final(self).pos == e && final(self).errs() == old(self).errs(),
                Scan::Fail(f) => r is None && faults(final(self).errs()) == faults(old(self).errs()).push(f),
            },
            r is Some ==> final(self).pos > old(self).pos,
        decreases old(self).input@.len() - old(self).pos, 1int,
    {
        let ghost s = self.input@;
        proof {
            lemma_run_end(s, self.pos as int, |c: char| is_key_char(c));
        }
        let key = match self.key_name() {
            Some(k) => k,
            None => {
                self.fail_at(self.pos, "expected a key");
                return None;
            },
        };
        proof {
            lemma_ws_end(s, self.pos as int);
            let a = ws_end(s, self.pos as int);
            if a < s.len() {
                lemma_ws_end(s, a + 1);
            }
        }
        if !self.keyval_sep() {
            self.fail_at(self.pos, "expected `=`");
            return None;
        }
        match self.value() {
            Some(v) => Some((key, v)),
            None => None,
        }
    }

    /// A comment at the cursor: `#` and the rest of its line.
    pub fn comment(&mut self) -> (r: Option<Element>)
        requires
            old(self).wf(),
        ensures
            final(self).wf(),
            final(self).same_but_pos(old(self)),
            final(self).text() == old(self).text(),
            final(self).names_left() == old(self).names_left(),
            final(self).has_failed() == old(self).has_failed(),
            final(self).errs() == old(self).errs(),
            ({
                let (s, p) = (old(self).text(), old(self).at());
                if p < s.len() && s[p] == '#' {
                    r matches Some(x) && x.elem() == Elem::Comment(comment_at(s, p).0) && final(self).at()
                        == comment_at(s, p).1
                } else {
                    r is None && final(self).at() == p
                }
            }),
    {
        if !self.eat('#') {
            return None;
        }
        let t = match self.slice_to_inc('\n') {
            Some(t) => t,
            None => String::new(),
        };
        Some(Element::Comment(t))
    }

    /// A cell at the cursor: the text up to the next `|`, without its trailing
    /// white space; the cursor moves past that `|`.
    fn cell(&mut self) -> (r: String)
        requires
            old(self).wf(),
            old(self).pos < old(self).input@.len(),
        ensures
            final(self).wf(),
            final(self).same_but_pos(old(self)),
            final(self).text() == old(self).text(),
            final(self).names_left() == old(self).names_left(),
            final(self).has_failed() == old(self).has_failed(),
            final(self).errs() == old(self).errs(),
            r@ == trim_end(old(self).text().subrange(old(self).pos as int, find_from(old(self).text(), old(self).pos as int, '|'))),
            final(self).pos == line_end_of(old(self).text(), old(self).pos as int, '|'),
    {
        let ghost s = self.input@;
        let lo = self.pos;
        proof {
            lemma_find_from(s, lo as int, '|');
        }
        let e = self.find('|');
        let mut hi = e;
        while hi > lo && is_white_space_char(self.input[hi - 1])
            invariant
                lo <= hi <= e <= s.len(),
                s == self.input@,
                trim_end(s.subrange(lo as int, hi as int)) == trim_end(s.subrange(lo as int, e as int)),
            decreases hi,
        {
            proof {
                assert(s.subrange(lo as int, hi as int).drop_last() =~= s.subrange(lo as int, hi - 1));
            }
            hi = hi - 1;
        }
        let t = self.copy_range(lo, hi);
        self.pos = if e < self.input.len() { e + 1 } else { e };
        t
    }

    /// A table row whose `|` is at the cursor.
    fn row(&mut self) -> (r: Element)
        requires
            old(self).wf(),
            old(self).pos < old(self).input@.len(),
            old(self).input@[old(self).pos as int] == '|',
        ensures
            final(self).wf(),
            final(self).same_but_pos(old(self)),
            final(self).text() == old(self).text(),
            final(self).names_left() == old(self).names_left(),
            final(self).has_failed() == old(self).has_failed(),
            final(self).errs() == old(self).errs(),
            r.elem() == Elem::Row(row_cells(old(self).text(), old(self).pos + 1, Seq::empty()).0),
            final(self).pos == row_cells(old(self).text(), old(self).pos + 1, Seq::empty()).1,
            final(self).pos > old(self).pos,
    {
        let ghost s = self.input@;
        let mut row: Vec<Value> = Vec::with_capacity(self.row_capacity);
        self.eat('|');
        let start = self.pos;
        proof {
            assert(nodes_of(row@) =~= Seq::<Node>::empty());
        }
        loop
            invariant_except_break
                row_cells(s, self.pos as int, nodes_of(row@)) == row_cells(s, start as int, Seq::empty()),
            invariant
                self.wf(),
                self.same_but_pos(old(self)),
                s == self.input@,
                start == old(self).pos + 1,
                start <= self.pos <= s.len(),
            ensures
                self.wf(),
                self.same_but_pos(old(self)),
                start <= self.pos,
                (nodes_of(row@), self.pos as int) == row_cells(s, start as int, Seq::empty()),
            decreases s.len() - self.pos,
        {
            let ghost r0 = self.pos as int;
            self.ws();
            proof {
                lemma_ws_end(s, r0);
                if self.pos + 1 < s.len() {
                    lemma_find_from(s, self.pos + 1, '\n');
                }
            }
            if self.comment().is_some() {
                break;
            }
            if self.newline() {
                break;
            }
            if self.pos >= self.input.len() {
                break;
            }
            proof {
                lemma_find_from(s, self.pos as int, '|');
            }
            let ghost r1 = self.pos as int;
            let t = self.cell();
            let v = Value::String(t);
            proof {
                assert(row@.push(v).drop_last() =~= row@);
                assert(v.node() == Node::Str(t@));
                assert(row@.push(v).last() == v);
                assert(nodes_of(row@.push(v)) == nodes_of(row@).push(Node::Str(t@)));
                assert(row_cells(s, r0, nodes_of(row@)) == row_cells(
                    s,
                    line_end_of(s, r1, '|'),
                    nodes_of(row@).push(Node::Str(trim_end(s.subrange(r1, find_from(s, r1, '|'))))),
                ));
            }
            row.push(v);
        }
        Element::Row(row)
    }

    /// The name of a section header whose `[` is at the cursor.
    fn section_name(&mut self) -> (r: String)
        requires
            old(self).wf(),
            old(self).pos < old(self).input@.len(),
            old(self).input@[old(self).pos as int] == '[',
        ensures
            final(self).wf(),
            final(self).same_but_pos(old(self)),
            final(self).text() == old(self).text(),
            final(self).names_left() == old(self).names_left(),
            final(self).has_failed() == old(self).has_failed(),
            final(self).errs() == old(self).errs(),
            (r@, final(self).pos as int) == section_name_at(old(self).text(), old(self).pos as int),
            final(self).pos > old(self).pos,
    {
        let ghost s = self.input@;
        self.eat('[');
        proof {
            lemma_ws_end(s, self.pos as int);
        }
        self.ws();
        let q = self.pos;
        proof {
            lemma_find_from(s, q as int, ']');
        }
        let e = self.find(']');
        let name = self.copy_range(q, e);
        self.pos = if e < self.input.len() { e + 1 } else { e };
        name
    }

    /// Whether the section `name` is read: `None` once every accepted name
    /// has been met; an accepted name is struck off when met.
    fn is_section_accepted(&mut self, name: &String) -> (r: Option<bool>)
        requires
            old(self).wf(),
        ensures
            final(self).wf(),
            final(self).input@ == old(self).input@,
            final(self).pos == old(self).pos,
            final(self).byte_len == old(self).byte_len,
            final(self).failed == old(self).failed,
            final(self).errors@ == old(self).errors@,
            final(self).capacities() == old(self).capacities(),
            match old(self).names_left() {
                None => r == Some(true) && final(self).names_left() is None,
                Some(rest) => if rest.len() == 0 {
                    r is None && final(self).names_left() == old(self).names_left()
                } else if first_index(rest, name@, 0) < rest.len() {
                    r == Some(true) && final(self).names_left() == Some(rest.remove(first_index(rest, name@, 0)))
                } else {
                    r == Some(false) && final(self).names_left() == old(self).names_left()
                },
            },
    {
        let mut acc: Option<Vec<String>> = None;
        std::mem::swap(&mut acc, &mut self.accepted_sections);
        match acc {
            None => Some(true),
            Some(mut v) => {
                let ghost rest = v@.map_values(|n: String| n@);
                if v.len() == 0 {
                    self.accepted_sections = Some(v);
                    return None;
                }
                let mut i: usize = 0;
                while i < v.len() && key_cmp(v[i].as_str(), name.as_str()) != 0
                    invariant
                        i <= v@.len(),
                        rest == v@.map_values(|n: String| n@),
                        first_index(rest, name@, i as int) == first_index(rest, name@, 0),
                    decreases v@.len() - i,
                {
                    i = i + 1;
                }
                if i < v.len() {
                    v.remove(i);
                    proof {
                        assert(v@.map_values(|n: String| n@) =~= rest.remove(i as int));
                    }
                    self.accepted_sections = Some(v);
                    Some(true)
                } else {
                    self.accepted_sections = Some(v);
                    Some(false)
                }
            },
        }
    }

    /// The next element: a section header, a row, an entry or a comment;
    /// `None` at the end of the input, once every accepted section has been
    /// read (the cursor then rests on the next header, so that `None` comes
    /// again), or when an entry cannot be read (which marks the parser failed).
    /// The lines of a section that the filter rejects are skipped unread.
    #[verifier::rlimit(100)]
    #[verifier::spinoff_prover]
    pub fn next(&mut self) -> (r: Option<Element>)
        requires
            old(self).wf(),
        ensures
            final(self).wf(),
            final(self).text() == old(self).text(),
            final(self).capacities() == old(self).capacities(),
            match next_at(old(self).text(), old(self).at(), old(self).names_left(), true) {
                Step::Emit(e, pn, f2) => r matches Some(x) && x.elem() == e && final(self).at() == pn
                    && final(self).names_left() == f2 && final(self).errs() == old(self).errs()
                    && final(self).has_failed() == old(self).has_failed(),
                Step::End => r is None && final(self).errs() == old(self).errs()
                    && final(self).has_failed() == old(self).has_failed() && next_at(
                    final(self).text(),
                    final(self).at(),
                    final(self).names_left(),
                    true,
                ) is End,
                Step::Fail(f) => r is None && final(self).has_failed() && faults(final(self).errs())
                    == faults(old(self).errs()).push(f),
            },
            r is Some ==> final(self).at() > old(self).at(),
    {
        let ghost s = self.input@;
        let mut accepting = true;
        loop
            invariant
                self.wf(),
                s == self.input@,
                s == old(self).input@,
                self.byte_len == old(self).byte_len,
                self.capacities() == old(self).capacities(),
                self.errors@ == old(self).errors@,
                self.failed == old(self).failed,
                old(self).pos <= self.pos <= s.len(),
                next_at(s, self.pos as int, self.names_left(), accepting) == next_at(
                    s,
                    old(self).pos as int,
                    old(self).names_left(),
                    true,
                ),
            decreases s.len() - self.pos,
        {
            let ghost p = self.pos as int;
            self.ws();
            proof {
                lemma_ws_end(s, p);
            }
            if self.newline() {
                continue;
            }
            if self.pos >= self.input.len() {
                return None;
            }
            let c = self.input[self.pos];
            if c == '[' {
                let start = self.pos;
                let name = self.section_name();
                match self.is_section_accepted(&name) {
                    Some(true) => return Some(Element::Section(name)),
                    Some(false) => {
                        accepting = false;
                        proof {
                            lemma_find_from(s, self.pos as int, '\n');
                        }
                        self.skip_line();
                        continue;
                    },
                    None => {
                        self.pos = start;
                        proof {
                            lemma_run_end_unique(s, start as int, start as int, |c: char| crate::text::is_blank(c));
                        }
                        return None;
                    },
                }
            }
            if !accepting {
                proof {
                    lemma_find_from(s, self.pos as int, '\n');
                }
                self.skip_line();
                continue;
            }
            if c == '|' {
                return Some(self.row());
            }
            if c == '#' {
                proof {
                    if self.pos + 1 < s.len() {
                        lemma_find_from(s, self.pos + 1, '\n');
                    }
                }
                return self.comment();
            }
            match self.entry() {
                Some((k, v)) => return Some(Element::Entry(k, v)),
                None => {
                    self.failed = true;
                    return None;
                },
            }
        }
    }

    /// Reads the rest of the input into sections by name. Without a filter,
    /// what precedes the first header goes to a section named `root`; a
    /// later section of the same name replaces an earlier one. With a
    /// filter, only the first occurrence of each accepted name is kept.
    /// `None` when reading stops on a scan failure; the errors then hold what
    /// went wrong.
    #[verifier::rlimit(100)]
    #[verifier::spinoff_prover]
    pub fn read(&mut self) -> (r: Option<SortedMap<Section>>)
        requires
            old(self).wf(),
        ensures
            final(self).wf(),
            final(self).text() == old(self).text(),
            match assemble(
                old(self).text(),
                old(self).at(),
                old(self).names_left(),
                old(self).names_left() is None,
                initial_assembly(),
            ) {
                Ok(d) => r matches Some(m) && map_vals(m.spec_entries(), |x: Section| x.model()) == d
                    && final(self).errs() == old(self).errs(),
                Err(f) => r is None && faults(final(self).errs()) == faults(old(self).errs()).push(f),
            },
            r is None <==> final(self).errs().len() == old(self).errs().len() + 1,
            r is Some ==> final(self).errs() == old(self).errs(),
    {
        let ghost s = self.input@;
        let unfiltered = self.accepted_sections.is_none();
        self.failed = false;
        let mut map: SortedMap<Section> = SortedMap::new();
        let mut section = Section::with_capacity(self.section_capacity);
        let mut name: Option<String> = None;
        proof {
            lemma_map_vals(map.spec_entries(), |x: Section| x.model());
            lemma_map_vals(section.dictionary.spec_entries(), |v: Value| v.node());
            assert(map_vals(map.spec_entries(), |x: Section| x.model()) =~= Seq::<(Seq<char>, SectionModel)>::empty());
            assert(section.model().dict =~= Seq::<(Seq<char>, Node)>::empty());
            assert(section.model().rows =~= Seq::<Seq<Node>>::empty());
        }
        loop
            invariant
                self.wf(),
                s == self.input@,
                s == old(self).input@,
                self.errors@ == old(self).errors@,
                !self.failed,
                unfiltered == (old(self).names_left() is None),
                old(self).pos <= self.pos <= s.len(),
                assemble(
                    s,
                    self.pos as int,
                    self.names_left(),
                    unfiltered,
                    Assembly {
                        done: map_vals(map.spec_entries(), |x: Section| x.model()),
                        current: section.model(),
                        name: opt_view(name),
                    },
                ) == assemble(s, old(self).pos as int, old(self).names_left(), unfiltered, initial_assembly()),
            decreases s.len() - self.pos,
        {
            let ghost a = Assembly {
                done: map_vals(map.spec_entries(), |x: Section| x.model()),
                current: section.model(),
                name: opt_view(name),
            };
            match self.next() {
                Some(el) => {
                    let ghost e = el.elem();
                    match el {
                        Element::Section(n) => {
                            proof {
                                lemma_map_vals(section.dictionary.spec_entries(), |v: Value| v.node());
                            }
                            match name {
                                Some(m) => {
                                    proof {
                                        lemma_insert_map_vals(map.spec_entries(), m@, section, |x: Section| x.model());
                                    }
                                    map.insert(m, section);
                                },
                                None => {
                                    if unfiltered && (!section.dictionary.is_empty() || section.rows.len() > 0) {
                                        let root = String::from_str("root");
                                        proof {
                                            lemma_insert_map_vals(map.spec_entries(), root@, section, |x: Section| x.model());
                                        }
                                        map.insert(root, section);
                                    }
                                },
                            }
                            name = Some(n);
                            section = Section::with_capacity(self.section_capacity);
                            proof {
                                lemma_map_vals(section.dictionary.spec_entries(), |v: Value| v.node());
                                assert(section.model().dict =~= Seq::<(Seq<char>, Node)>::empty());
                                assert(section.model().rows =~= Seq::<Seq<Node>>::empty());
                            }
                        },
                        Element::Row(row) => {
                            proof {
                                assert(rows_nodes(section.rows@.push(row)) =~= rows_nodes(section.rows@).push(nodes_of(row@)));
                            }
                            section.rows.push(row);
                        },
                        Element::Entry(k, v) => {
                            proof {
                                lemma_insert_map_vals(section.dictionary.spec_entries(), k@, v, |v: Value| v.node());
                            }
                            section.dictionary.insert(k, v);
                        },
                        Element::Comment(_) => {},
                    }
                    proof {
                        assert(Assembly {
                            done: map_vals(map.spec_entries(), |x: Section| x.model()),
                            current: section.model(),
                            name: opt_view(name),
                        } == apply(a, e, unfiltered));
                    }
                },
                None => {
                    if self.failed {
                        return None;
                    }
                    proof {
                        lemma_map_vals(section.dictionary.spec_entries(), |v: Value| v.node());
                    }
                    match name {
                        Some(m) => {
                            proof {
                                lemma_insert_map_vals(map.spec_entries(), m@, section, |x: Section| x.model());
                            }
                            map.insert(m, section);
                        },
                        None => {
                            if unfiltered {
                                let root = String::from_str("root");
                                proof {
                                    lemma_insert_map_vals(map.spec_entries(), root@, section, |x: Section| x.model());
                                }
                                map.insert(root, section);
                            }
                        },
                    }
                    return Some(map);
                },
            }
        }
    }
}

} // verus!
