//! What reading a section of three-cell table lines yields.

use vstd::prelude::*;
use crate::grammar::{
    apply, assemble, close_current, document, initial_assembly,
    lemma_find_from_unique, lemma_ws_end, next_at, row_cells,
    trim_end, ws_end, Assembly, Elem, SectionModel, Step,
};
use crate::section::{all_dashes, has_header};
use crate::sorted_map::{lower_bound, map_insert};
use crate::text::{is_blank, lemma_run_end_unique};
use crate::value::Node;

verus! {

/// A cell's text as the row scanner reads it: leading blanks skipped and
/// trailing white space trimmed.
pub open spec fn cell_text(c: Seq<char>) -> Seq<char> {
    trim_end(c.subrange(ws_end(c, 0), c.len() as int))
}

/// Whether `c`, once its leading blanks are skipped, opens a comment.
pub open spec fn opens_comment(c: Seq<char>) -> bool {
    ws_end(c, 0) < c.len() && c[ws_end(c, 0)] == '#'
}

/// Text that can stand between two `|` of one line.
pub open spec fn plain_cell(c: Seq<char>) -> bool {
    forall|i: int| 0 <= i < c.len() ==> #[trigger] c[i] != '|' && c[i] != '\n' && c[i] != '\r' && c[i] != '\t'
}

/// The line `|a|b|c|` with its line break.
pub open spec fn line3(a: Seq<char>, b: Seq<char>, c: Seq<char>) -> Seq<char> {
    seq!['|'] + a + seq!['|'] + b + seq!['|'] + c + seq!['|', '\n']
}

/// The cells read from `line3(a, b, c)`: none when the first opens a comment.
pub open spec fn cells3(a: Seq<char>, b: Seq<char>, c: Seq<char>) -> Seq<Node> {
    if opens_comment(a) {
        Seq::empty()
    } else {
        seq![Node::Str(cell_text(a)), Node::Str(cell_text(b)), Node::Str(cell_text(c))]
    }
}

pub open spec fn line_ok(a: Seq<char>, b: Seq<char>, c: Seq<char>) -> bool {
    &&& plain_cell(a)
    &&& plain_cell(b)
    &&& plain_cell(c)
    &&& opens_comment(a) || (!opens_comment(b) && !opens_comment(c))
}

/// Table lines, one after the other.
pub open spec fn lines_text(lines: Seq<(Seq<char>, Seq<char>, Seq<char>)>) -> Seq<char>
    decreases lines.len(),
{
    if lines.len() == 0 {
        Seq::empty()
    } else {
        line3(lines[0].0, lines[0].1, lines[0].2) + lines_text(lines.drop_first())
    }
}

/// The rows read from table lines.
pub open spec fn lines_rows(lines: Seq<(Seq<char>, Seq<char>, Seq<char>)>) -> Seq<Seq<Node>>
    decreases lines.len(),
{
    if lines.len() == 0 {
        Seq::empty()
    } else {
        seq![cells3(lines[0].0, lines[0].1, lines[0].2)] + lines_rows(lines.drop_first())
    }
}

/// Three lines that repeat `c` in every cell, after a header and separator
/// line when `with_header` holds.
pub open spec fn repeated_lines(c: Seq<char>, with_header: bool) -> Seq<(Seq<char>, Seq<char>, Seq<char>)> {
    let rows = seq![(c, c, c), (c, c, c), (c, c, c)];
    if with_header {
        seq![("head1"@, "head2"@, "head3"@), ("-----"@, "-----"@, "-----"@)] + rows
    } else {
        rows
    }
}

/// The section `[FOO]` holding the lines of `repeated_lines(c, with_header)`.
pub open spec fn repeated_table(c: Seq<char>, with_header: bool) -> Seq<char> {
    "[FOO]\n"@ + lines_text(repeated_lines(c, with_header))
}

/// How many rows `rows_without_header` keeps of `rows`.
pub open spec fn kept_rows(rows: Seq<Seq<Node>>) -> int {
    if has_header(rows) {
        rows.len() - 2
    } else {
        rows.len() as int
    }
}

/// A cell `c` at `q`, closed by `|`, adds its text to the row.
proof fn lemma_cell(s: Seq<char>, q: int, c: Seq<char>, acc: Seq<Node>)
    requires
        0 <= q,
        q + c.len() < s.len(),
        s.subrange(q, q + c.len()) == c,
        s[q + c.len()] == '|',
        plain_cell(c),
        !opens_comment(c),
    ensures
        row_cells(s, q, acc) == row_cells(s, q + c.len() + 1, acc.push(Node::Str(cell_text(c)))),
{
    let b = ws_end(c, 0);
    lemma_ws_end(c, 0);
    assert forall|i: int| q <= i < q + b implies is_blank(#[trigger] s[i]) by {
        assert(s.subrange(q, q + c.len())[i - q] == s[i]);
    }
    if b < c.len() {
        assert(s.subrange(q, q + c.len())[b] == s[q + b]);
    }
    lemma_run_end_unique(s, q, q + b, |c: char| is_blank(c));
    assert forall|i: int| q + b <= i < q + c.len() implies #[trigger] s[i] != '|' by {
        assert(s.subrange(q, q + c.len())[i - q] == s[i]);
    }
    lemma_find_from_unique(s, q + b, q + c.len(), '|');
    assert(s.subrange(q + b, q + c.len()) =~= c.subrange(b, c.len() as int));
}

/// A cell at `q` that opens a comment ends the row at the end of its line.
proof fn lemma_comment_cell(s: Seq<char>, q: int, c: Seq<char>, e: int, acc: Seq<Node>)
    requires
        0 <= q,
        q + c.len() <= e < s.len(),
        s.subrange(q, q + c.len()) == c,
        opens_comment(c),
        forall|i: int| q <= i < e ==> #[trigger] s[i] != '\n',
        s[e] == '\n',
    ensures
        row_cells(s, q, acc) == (acc, e + 1),
{
    let b = ws_end(c, 0);
    lemma_ws_end(c, 0);
    assert forall|i: int| q <= i < q + b implies is_blank(#[trigger] s[i]) by {
        assert(s.subrange(q, q + c.len())[i - q] == s[i]);
    }
    assert(s.subrange(q, q + c.len())[b] == s[q + b]);
    lemma_run_end_unique(s, q, q + b, |c: char| is_blank(c));
    lemma_find_from_unique(s, q + b + 1, e, '\n');
}

/// A line break at `e` ends the row.
proof fn lemma_row_end(s: Seq<char>, e: int, acc: Seq<Node>)
    requires
        0 <= e < s.len(),
        s[e] == '\n',
    ensures
        row_cells(s, e, acc) == (acc, e + 1),
{
    lemma_run_end_unique(s, e, e, |c: char| is_blank(c));
}

/// The line `|a|b|c|` at `p` is read as one row.
proof fn lemma_row_line(s: Seq<char>, p: int, a: Seq<char>, b: Seq<char>, c: Seq<char>)
    requires
        0 <= p,
        p + line3(a, b, c).len() <= s.len(),
        s.subrange(p, p + line3(a, b, c).len()) == line3(a, b, c),
        line_ok(a, b, c),
    ensures
        next_at(s, p, None, true) == Step::Emit(
            Elem::Row(cells3(a, b, c)),
            p + line3(a, b, c).len(),
            None,
        ),
{
    let l = line3(a, b, c);
    let n = l.len() as int;
    assert forall|i: int| 0 <= i < n implies #[trigger] s[p + i] == l[i] by {
        assert(s.subrange(p, p + n)[i] == s[p + i]);
    }
    let q1 = p + 1;
    let q2 = q1 + a.len() + 1;
    let q3 = q2 + b.len() + 1;
    let e = q3 + c.len() + 1;
    assert(n == 5 + a.len() + b.len() + c.len());
    assert(s.subrange(p, p + n)[0] == s[p]);
    assert(l[0] == '|');
    assert(s[p] == '|');
    assert(s[q2 - 1] == l[q2 - 1 - p]);
    assert(s[q2 - 1] == '|');
    assert(s[q3 - 1] == l[q3 - 1 - p]);
    assert(s[q3 - 1] == '|');
    assert(s[e - 1] == l[e - 1 - p]);
    assert(s[e - 1] == '|');
    assert(s[e] == l[e - p]);
    assert(s[e] == '\n');
    assert(s.subrange(q1, q1 + a.len()) =~= a) by {
        assert forall|i: int| 0 <= i < a.len() implies s[q1 + i] == a[i] by {
            assert(s[q1 + i] == l[1 + i]);
        }
    }
    assert(s.subrange(q2, q2 + b.len()) =~= b) by {
        assert forall|i: int| 0 <= i < b.len() implies s[q2 + i] == b[i] by {
            assert(s[q2 + i] == l[q2 - p + i]);
        }
    }
    assert(s.subrange(q3, q3 + c.len()) =~= c) by {
        assert forall|i: int| 0 <= i < c.len() implies s[q3 + i] == c[i] by {
            assert(s[q3 + i] == l[q3 - p + i]);
        }
    }
    lemma_run_end_unique(s, p, p, |c: char| is_blank(c));
    if opens_comment(a) {
        assert forall|i: int| q1 <= i < e implies #[trigger] s[i] != '\n' by {
            assert(s[i] == l[i - p]);
            if i < q2 - 1 {
                assert(l[i - p] == a[i - q1]);
            } else if q2 <= i < q3 - 1 {
                assert(l[i - p] == b[i - q2]);
            } else if q3 <= i < e - 1 {
                assert(l[i - p] == c[i - q3]);
            }
        }
        lemma_comment_cell(s, q1, a, e, Seq::empty());
    } else {
        let acc1 = Seq::<Node>::empty().push(Node::Str(cell_text(a)));
        let acc2 = acc1.push(Node::Str(cell_text(b)));
        let acc3 = acc2.push(Node::Str(cell_text(c)));
        lemma_cell(s, q1, a, Seq::empty());
        lemma_cell(s, q2, b, acc1);
        lemma_cell(s, q3, c, acc2);
        lemma_row_end(s, e, acc3);
        assert(acc3 =~= cells3(a, b, c));
    }
}

/// Reading table lines from `p` to the end adds their rows to the section
/// being filled.
proof fn lemma_lines_assemble(
    s: Seq<char>,
    p: int,
    lines: Seq<(Seq<char>, Seq<char>, Seq<char>)>,
    a: Assembly,
)
    requires
        0 <= p <= s.len(),
        s.subrange(p, s.len() as int) == lines_text(lines),
        forall|i: int| 0 <= i < lines.len() ==> line_ok(#[trigger] lines[i].0, lines[i].1, lines[i].2),
    ensures
        assemble(s, p, None, true, a) == Ok::<_, crate::grammar::Fault>(
            close_current(
                Assembly {
                    current: SectionModel { rows: a.current.rows + lines_rows(lines), ..a.current },
                    ..a
                },
                true,
                true,
            ),
        ),
    decreases lines.len(),
{
    if lines.len() == 0 {
        assert(a.current.rows + lines_rows(lines) =~= a.current.rows);
        assert(Assembly {
            current: SectionModel { rows: a.current.rows + lines_rows(lines), ..a.current },
            ..a
        } == a);
    } else {
        let l = line3(lines[0].0, lines[0].1, lines[0].2);
        let rest = lines.drop_first();
        assert(lines_text(lines) == l + lines_text(rest));
        assert(s.subrange(p, p + l.len()) =~= l) by {
            assert forall|i: int| 0 <= i < l.len() implies s[p + i] == l[i] by {
                assert(s.subrange(p, s.len() as int)[i] == s[p + i]);
                assert((l + lines_text(rest))[i] == l[i]);
            }
        }
        assert(s.subrange(p + l.len(), s.len() as int) =~= lines_text(rest)) by {
            assert forall|i: int| 0 <= i < lines_text(rest).len() implies s[p + l.len() + i]
                == lines_text(rest)[i] by {
                assert(s.subrange(p, s.len() as int)[l.len() + i] == s[p + l.len() + i]);
                assert((l + lines_text(rest))[l.len() + i] == lines_text(rest)[i]);
            }
        }
        assert(line_ok(lines[0].0, lines[0].1, lines[0].2));
        lemma_row_line(s, p, lines[0].0, lines[0].1, lines[0].2);
        let r = cells3(lines[0].0, lines[0].1, lines[0].2);
        let a2 = apply(a, Elem::Row(r), true);
        assert forall|i: int| 0 <= i < rest.len() implies line_ok(#[trigger] rest[i].0, rest[i].1, rest[i].2) by {
            assert(rest[i] == lines[i + 1]);
        }
        lemma_lines_assemble(s, p + l.len(), rest, a2);
        assert(a2.current.rows + lines_rows(rest) =~= a.current.rows + lines_rows(lines));
    }
}

/// The header `[FOO]` and its line break open the section `FOO`; reading
/// goes on at the first table line.
proof fn lemma_table_start(s: Seq<char>, t: Seq<char>)
    requires
        s == "[FOO]\n"@ + t,
        next_at(s, 6, None, true) matches Step::Emit(_, pn, _) && 6 < pn <= s.len(),
        t.len() > 0,
        t[0] != ' ' && t[0] != '\t' && t[0] != '\n' && t[0] != '\r',
    ensures
        assemble(s, 0, None, true, initial_assembly()) == assemble(
            s,
            6,
            None,
            true,
            apply(initial_assembly(), Elem::Section("FOO"@), true),
        ),
{
    reveal_strlit("[FOO]\n");
    reveal_strlit("FOO");
    assert(s[0] == '[' && s[1] == 'F' && s[2] == 'O' && s[3] == 'O' && s[4] == ']' && s[5] == '\n');
    assert(s[6] == t[0]);
    lemma_run_end_unique(s, 0, 0, |c: char| is_blank(c));
    lemma_run_end_unique(s, 1, 1, |c: char| is_blank(c));
    lemma_run_end_unique(s, 5, 5, |c: char| is_blank(c));
    lemma_run_end_unique(s, 6, 6, |c: char| is_blank(c));
    lemma_find_from_unique(s, 1, 4, ']');
    assert(s.subrange(1, 4) =~= "FOO"@);
    assert(next_at(s, 0, None, true) == Step::Emit(Elem::Section("FOO"@), 5, None));
    assert(next_at(s, 5, None, true) == next_at(s, 6, None, true));
    let a1 = apply(initial_assembly(), Elem::Section("FOO"@), true);
    assert(assemble(s, 0, None, true, initial_assembly()) == assemble(s, 5, None, true, a1));
    assert(assemble(s, 5, None, true, a1) == assemble(s, 6, None, true, a1));
}

proof fn lemma_repeated_lines_ok(c: Seq<char>, with_header: bool)
    requires
        plain_cell(c),
    ensures
        forall|i: int|
            0 <= i < repeated_lines(c, with_header).len() ==> line_ok(
                #[trigger] repeated_lines(c, with_header)[i].0,
                repeated_lines(c, with_header)[i].1,
                repeated_lines(c, with_header)[i].2,
            ),
{
    reveal_strlit("head1");
    reveal_strlit("head2");
    reveal_strlit("head3");
    reveal_strlit("-----");
    lemma_word_cell("head1"@);
    lemma_word_cell("head2"@);
    lemma_word_cell("head3"@);
    lemma_word_cell("-----"@);
}

proof fn lemma_repeated_rows(c: Seq<char>, with_header: bool)
    requires
        !with_header ==> !all_dashes(cell_text(c)),
    ensures
        kept_rows(lines_rows(repeated_lines(c, with_header))) == 3,
{
    reveal_with_fuel(lines_rows, 6);
    let rows = lines_rows(repeated_lines(c, with_header));
    if with_header {
        reveal_strlit("-----");
        lemma_word_cell("-----"@);
        assert(rows.len() == 5);
        assert(rows[1] == cells3("-----"@, "-----"@, "-----"@));
        assert(all_dashes(cell_text("-----"@)));
    } else {
        assert(rows.len() == 3);
        assert(rows[1] == cells3(c, c, c));
    }
}

/// Three table lines that repeat one cell text `c` in every cell keep all
/// three rows under the header rule, with or without a header and separator
/// line before them. `c` must not hold `|`, a line break, `\r` or a tab;
/// without a header line, `c` as read (leading blanks skipped, trailing
/// white space trimmed) must not be a run of dashes, as it would then read
/// as a separator itself.
pub proof fn lemma_repeated_cells_rows(c: Seq<char>, with_header: bool)
    requires
        plain_cell(c),
        !with_header ==> !all_dashes(cell_text(c)),
    ensures
        document(repeated_table(c, with_header), None) matches Ok(d) && d.len() == 1 && d[0].0
            == "FOO"@ && kept_rows(d[0].1.rows) == 3,
{
    let lines = repeated_lines(c, with_header);
    let t = lines_text(lines);
    let s = repeated_table(c, with_header);
    reveal_strlit("[FOO]\n");
    lemma_repeated_lines_ok(c, with_header);
    assert(lines_text(lines) == line3(lines[0].0, lines[0].1, lines[0].2) + lines_text(lines.drop_first()));
    let l0 = line3(lines[0].0, lines[0].1, lines[0].2);
    assert(t[0] == l0[0]);
    assert(s.subrange(6, 6 + l0.len() as int) =~= l0) by {
        assert forall|i: int| 0 <= i < l0.len() implies s[6 + i] == l0[i] by {
            assert(s[6 + i] == t[i]);
            assert(t[i] == l0[i]);
        }
    }
    lemma_row_line(s, 6, lines[0].0, lines[0].1, lines[0].2);
    lemma_table_start(s, t);
    let a1 = apply(initial_assembly(), Elem::Section("FOO"@), true);
    assert(close_current(initial_assembly(), true, false) == Seq::<(Seq<char>, SectionModel)>::empty());
    assert(s.subrange(6, s.len() as int) =~= t);
    lemma_lines_assemble(s, 6, lines, a1);
    let rows = lines_rows(lines);
    let sm = SectionModel { dict: Seq::empty(), rows: Seq::empty() + rows };
    assert(lower_bound(Seq::<(Seq<char>, SectionModel)>::empty(), "FOO"@, 0) == 0);
    let d = map_insert(Seq::<(Seq<char>, SectionModel)>::empty(), "FOO"@, sm);
    assert(d =~= seq![("FOO"@, sm)]);
    assert(Seq::<Seq<Node>>::empty() + rows =~= rows);
    lemma_repeated_rows(c, with_header);
}

/// A word without blanks, white space, `#` or `|` reads as itself.
proof fn lemma_word_cell(w: Seq<char>)
    requires
        w.len() > 0,
        forall|i: int| 0 <= i < w.len() ==> ('a' <= #[trigger] w[i] <= 'z') || ('0' <= w[i] <= '9') || w[i] == '-',
    ensures
        plain_cell(w),
        !opens_comment(w),
        cell_text(w) == w,
{
    lemma_run_end_unique(w, 0, 0, |c: char| is_blank(c));
    assert(w.subrange(0, w.len() as int) =~= w);
    assert(!crate::grammar::is_white_space(w.last()));
}

} // verus!
