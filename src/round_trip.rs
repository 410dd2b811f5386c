//! Reading the canonical text of a whole document back.

use vstd::prelude::*;
use crate::grammar::{
    apply, assemble, close_current, document, entry_at, is_key_char, is_white_space, lemma_find_from_unique, next_at, row_cells, trim_end,
    ws_end, section_name_at, line_end, first_index, newline_end, Assembly, Elem, Scan, Step,
};
use crate::grammar::SectionModel;
use crate::render::{cells_text, document_text, entry_lines, quoted_text, row_lines, section_text, text_of};
use crate::rescan::{lemma_at, lemma_value_rescan, plain_key, rescannable};
use crate::sorted_map::{keys_sorted, lower_bound, map_insert, map_lookup};
use crate::text::{is_blank, key_lt, lemma_run_end_unique};
use crate::value::Node;

verus! {

/// A cell text that a row line reads back as itself: no `|`, and neither
/// a blank, `#` nor a line break first nor white space last.
pub open spec fn plain_cell_text(t: Seq<char>) -> bool {
    &&& forall|i: int| 0 <= i < t.len() ==> #[trigger] t[i] != '|'
    &&& t.len() > 0 ==> !is_blank(t[0]) && t[0] != '#' && t[0] != '\n' && !is_white_space(t.last())
    &&& t.len() > 1 ==> !(t[0] == '\r' && t[1] == '\n')
}

/// Cells that a row line reads back: strings of plain cell text.
pub open spec fn plain_cells(c: Seq<Node>) -> bool {
    forall|i: int| 0 <= i < c.len() ==> (#[trigger] c[i] matches Node::Str(t) && plain_cell_text(t))
}

/// A row's cells, from the front.
proof fn lemma_cells_front(c: Seq<Node>)
    requires
        c.len() >= 1,
    ensures
        cells_text(c) == "| "@ + text_of(c[0]) + " "@ + cells_text(c.subrange(1, c.len() as int)),
    decreases c.len(),
{
    let rest = c.subrange(1, c.len() as int);
    if c.len() == 1 {
        assert(c.drop_last() =~= Seq::<Node>::empty());
        assert(rest =~= Seq::<Node>::empty());
        assert(cells_text(c.drop_last()) =~= Seq::<char>::empty());
        assert(cells_text(c) =~= "| "@ + text_of(c[0]) + " "@ + cells_text(rest));
    } else {
        lemma_cells_front(c.drop_last());
        assert(c.drop_last().subrange(1, c.len() - 1) =~= rest.drop_last());
        assert(c.drop_last()[0] == c[0]);
        assert(rest.last() == c.last());
        assert(cells_text(c) =~= "| "@ + text_of(c[0]) + " "@ + cells_text(rest));
    }
}

/// The cells of a row line, read after its first `|` at `r - 1`.
proof fn lemma_cells_rescan(c: Seq<Node>, s: Seq<char>, r: int, acc: Seq<Node>)
    requires
        plain_cells(c),
        1 <= r,
        r - 1 + (cells_text(c) + "|\n"@).len() <= s.len(),
        s.subrange(r - 1, r - 1 + (cells_text(c) + "|\n"@).len()) == cells_text(c) + "|\n"@,
    ensures
        row_cells(s, r, acc) == (acc + c, r - 1 + (cells_text(c) + "|\n"@).len()),
    decreases c.len(),
{
    let l = cells_text(c) + "|\n"@;
    reveal_strlit("|\n");
    reveal_strlit("| ");
    reveal_strlit(" ");
    lemma_at(s, r - 1, l);
    if c.len() == 0 {
        assert(cells_text(c) =~= Seq::<char>::empty());
        assert(s[r] == l[1]);
        assert(s[r] == '\n');
        lemma_run_end_unique(s, r, r, |x: char| is_blank(x));
        assert(acc + c =~= acc);
    } else {
        lemma_cells_front(c);
        let rest = c.subrange(1, c.len() as int);
        let t = match c[0] {
            Node::Str(t) => t,
            _ => Seq::empty(),
        };
        assert(c[0] matches Node::Str(_));
        assert(text_of(c[0]) == t);
        let l2 = cells_text(rest) + "|\n"@;
        assert(l =~= "| "@ + t + " "@ + l2);
        let e = r + 1 + t.len();
        assert(s[r] == l[1]);
        assert(s[r] == ' ');
        assert(s[e] == l[e - r + 1]);
        assert(s[e] == ' ');
        assert(s[e + 1] == l[e - r + 2]);
        assert(l2[0] == '|') by {
            if rest.len() > 0 {
                lemma_cells_front(rest);
            } else {
                assert(cells_text(rest) =~= Seq::<char>::empty());
            }
        }
        assert(s[e + 1] == '|');
        assert forall|j: int| r + 1 <= j < e implies #[trigger] s[j] == t[j - r - 1] by {
            assert(s[j] == l[j - r + 1]);
        }
        if t.len() > 0 {
            assert(s[r + 1] == t[0]);
            if t.len() > 1 {
                assert(s[r + 2] == t[1]);
            } else {
                assert(t[0] == t.last());
            }
            lemma_run_end_unique(s, r, r + 1, |x: char| is_blank(x));
            assert forall|j: int| r + 1 <= j < e + 1 implies #[trigger] s[j] != '|' by {
                if j < e {
                    assert(s[j] == t[j - r - 1]);
                }
            }
            lemma_find_from_unique(s, r + 1, e + 1, '|');
            assert(s.subrange(r + 1, e + 1) =~= t.push(' '));
            assert(t.push(' ').drop_last() =~= t);
            assert(is_white_space(' '));
            assert(trim_end(t.push(' ')) == trim_end(t));
            assert(trim_end(t) == t);
        } else {
            lemma_run_end_unique(s, r, r + 2, |x: char| is_blank(x));
            lemma_find_from_unique(s, r + 2, r + 2, '|');
            assert(s.subrange(r + 2, r + 2) =~= t);
        }
        assert(row_cells(s, r, acc) == row_cells(s, e + 2, acc.push(Node::Str(t))));
        assert(s.subrange(e + 1, e + 1 + l2.len()) =~= l2) by {
            assert forall|j: int| 0 <= j < l2.len() implies s[e + 1 + j] == l2[j] by {
                assert(s[e + 1 + j] == l[e - r + 2 + j]);
            }
        }
        assert forall|i: int| 0 <= i < rest.len() implies (#[trigger] rest[i] matches Node::Str(x) && plain_cell_text(x)) by {
            assert(rest[i] == c[i + 1]);
        }
        lemma_cells_rescan(rest, s, e + 2, acc.push(Node::Str(t)));
        assert(acc.push(Node::Str(t)) + rest =~= acc + c);
    }
}

/// A row line `| a | b |` at `p` reads back as its cells.
pub proof fn lemma_row_rescan(c: Seq<Node>, s: Seq<char>, p: int, f: Option<Seq<Seq<char>>>)
    requires
        plain_cells(c),
        0 <= p,
        p + (cells_text(c) + "|\n"@).len() <= s.len(),
        s.subrange(p, p + (cells_text(c) + "|\n"@).len()) == cells_text(c) + "|\n"@,
    ensures
        next_at(s, p, f, true) == Step::Emit(Elem::Row(c), p + (cells_text(c) + "|\n"@).len(), f),
{
    let l = cells_text(c) + "|\n"@;
    reveal_strlit("|\n");
    reveal_strlit("| ");
    lemma_at(s, p, l);
    assert(l[0] == '|') by {
        if c.len() > 0 {
            lemma_cells_front(c);
        } else {
            assert(cells_text(c) =~= Seq::<char>::empty());
        }
    }
    assert(s[p] == '|');
    lemma_run_end_unique(s, p, p, |x: char| is_blank(x));
    lemma_cells_rescan(c, s, p + 1, Seq::empty());
    assert(Seq::<Node>::empty() + c =~= c);
}

/// An entry line `k = v` at `p` reads back as its key and value; reading
/// stops at its line break.
pub proof fn lemma_entry_line_rescan(k: Seq<char>, v: Node, s: Seq<char>, p: int, f: Option<Seq<Seq<char>>>)
    requires
        plain_key(k),
        rescannable(v),
        0 <= p,
        p + (k + " = "@ + quoted_text(v) + "\n"@).len() <= s.len(),
        s.subrange(p, p + (k + " = "@ + quoted_text(v) + "\n"@).len()) == k + " = "@ + quoted_text(v) + "\n"@,
    ensures
        next_at(s, p, f, true) == Step::Emit(Elem::Entry(k, v), p + k.len() + 3 + quoted_text(v).len(), f),
        s[p + k.len() + 3 + quoted_text(v).len()] == '\n',
{
    let q = quoted_text(v);
    let l = k + " = "@ + q + "\n"@;
    reveal_strlit(" = ");
    reveal_strlit("\n");
    lemma_at(s, p, l);
    let ke = p + k.len();
    assert forall|j: int| p <= j < ke implies is_key_char(#[trigger] s[j]) by {
        assert(s[j] == l[j - p]);
    }
    assert(s.subrange(p, p + l.len())[0] == s[p]);
    assert(l[0] == k[0]);
    assert(s[p] == k[0]);
    assert(s[ke] == l[k.len() as int]);
    assert(s[ke + 1] == l[k.len() as int + 1]);
    assert(s[ke + 2] == l[k.len() as int + 2]);
    assert(s[ke] == ' ' && s[ke + 1] == '=' && s[ke + 2] == ' ');
    lemma_run_end_unique(s, p, p, |x: char| is_blank(x));
    lemma_run_end_unique(s, p, ke, |x: char| is_key_char(x));
    lemma_run_end_unique(s, ke, ke + 1, |x: char| is_blank(x));
    crate::rescan::lemma_first_char(v);
    let vs = ke + 3;
    assert(s[vs] == l[k.len() as int + 3]);
    assert(s[vs] == q[0]);
    lemma_run_end_unique(s, ke + 2, vs, |x: char| is_blank(x));
    let e = vs + q.len();
    assert(s.subrange(vs, e) =~= q) by {
        assert forall|j: int| 0 <= j < q.len() implies s[vs + j] == q[j] by {
            assert(s[vs + j] == l[k.len() + 3 + j]);
        }
    }
    assert(s[e] == l[k.len() as int + 3 + q.len() as int]);
    assert(s[e] == '\n');
    lemma_value_rescan(v, s, vs);
    assert(s.subrange(p, ke) =~= k) by {
        assert forall|j: int| 0 <= j < k.len() implies s[p + j] == k[j] by {
            assert(s[p + j] == l[j]);
        }
    }
    assert(entry_at(s, p) == Scan::Done((k, v), e));
}

/// A line break at `e` is skipped on the way to the next element.
pub proof fn lemma_skip_newline(s: Seq<char>, e: int, f: Option<Seq<Seq<char>>>, u: bool, a: Assembly)
    requires
        0 <= e < s.len(),
        s[e] == '\n',
        match next_at(s, e + 1, f, true) {
            Step::Emit(_, pn, _) => e + 1 < pn <= s.len(),
            _ => true,
        },
    ensures
        next_at(s, e, f, true) == next_at(s, e + 1, f, true),
        assemble(s, e, f, u, a) == assemble(s, e + 1, f, u, a),
{
    lemma_run_end_unique(s, e, e, |x: char| is_blank(x));
}

/// A section's entry lines, from the front.
proof fn lemma_entry_lines_front(d: Seq<(Seq<char>, Node)>)
    requires
        d.len() >= 1,
    ensures
        entry_lines(d) == d[0].0 + " = "@ + quoted_text(d[0].1) + "\n"@ + entry_lines(d.subrange(1, d.len() as int)),
    decreases d.len(),
{
    let rest = d.subrange(1, d.len() as int);
    if d.len() == 1 {
        assert(d.drop_last() =~= Seq::<(Seq<char>, Node)>::empty());
        assert(rest =~= Seq::<(Seq<char>, Node)>::empty());
        assert(entry_lines(d) =~= d[0].0 + " = "@ + quoted_text(d[0].1) + "\n"@ + entry_lines(rest));
    } else {
        lemma_entry_lines_front(d.drop_last());
        assert(d.drop_last().subrange(1, d.len() - 1) =~= rest.drop_last());
        assert(d.drop_last()[0] == d[0]);
        assert(rest.last() == d.last());
        assert(entry_lines(d) =~= d[0].0 + " = "@ + quoted_text(d[0].1) + "\n"@ + entry_lines(rest));
    }
}

/// A section's row lines, from the front.
proof fn lemma_row_lines_front(r: Seq<Seq<Node>>)
    requires
        r.len() >= 1,
    ensures
        row_lines(r) == cells_text(r[0]) + "|\n"@ + row_lines(r.subrange(1, r.len() as int)),
    decreases r.len(),
{
    let rest = r.subrange(1, r.len() as int);
    if r.len() == 1 {
        assert(r.drop_last() =~= Seq::<Seq<Node>>::empty());
        assert(rest =~= Seq::<Seq<Node>>::empty());
        assert(row_lines(r) =~= cells_text(r[0]) + "|\n"@ + row_lines(rest));
    } else {
        lemma_row_lines_front(r.drop_last());
        assert(r.drop_last().subrange(1, r.len() - 1) =~= rest.drop_last());
        assert(r.drop_last()[0] == r[0]);
        assert(rest.last() == r.last());
        assert(row_lines(r) =~= cells_text(r[0]) + "|\n"@ + row_lines(rest));
    }
}

/// A document's text, from the front.
proof fn lemma_document_front(d: Seq<(Seq<char>, SectionModel)>)
    requires
        d.len() >= 1,
    ensures
        document_text(d) == "["@ + d[0].0 + "]\n"@ + section_text(d[0].1) + "\n"@ + document_text(
            d.subrange(1, d.len() as int),
        ),
    decreases d.len(),
{
    let rest = d.subrange(1, d.len() as int);
    if d.len() == 1 {
        assert(d.drop_last() =~= Seq::<(Seq<char>, SectionModel)>::empty());
        assert(rest =~= Seq::<(Seq<char>, SectionModel)>::empty());
        assert(document_text(d) =~= "["@ + d[0].0 + "]\n"@ + section_text(d[0].1) + "\n"@ + document_text(rest));
    } else {
        lemma_document_front(d.drop_last());
        assert(d.drop_last().subrange(1, d.len() - 1) =~= rest.drop_last());
        assert(d.drop_last()[0] == d[0]);
        assert(rest.last() == d.last());
        assert(document_text(d) =~= "["@ + d[0].0 + "]\n"@ + section_text(d[0].1) + "\n"@ + document_text(rest));
    }
}

/// Reading from `q` goes on to a later position, or ends.
pub open spec fn advances(s: Seq<char>, q: int, f: Option<Seq<Seq<char>>>) -> bool {
    match next_at(s, q, f, true) {
        Step::Emit(_, pn, _) => q < pn <= s.len(),
        Step::Fail(_) => false,
        Step::End => true,
    }
}

/// Entries that can be written: plain keys, values that scan back.
pub open spec fn plain_entries(d: Seq<(Seq<char>, Node)>) -> bool {
    forall|i: int| 0 <= i < d.len() ==> plain_key(#[trigger] d[i].0) && rescannable(d[i].1)
}

/// The assembly with `d` added to the current section's dictionary.
pub open spec fn with_entries(a: Assembly, d: Seq<(Seq<char>, Node)>) -> Assembly {
    Assembly { current: SectionModel { dict: a.current.dict + d, ..a.current }, ..a }
}

/// The assembly with `r` added to the current section's rows.
pub open spec fn with_rows(a: Assembly, r: Seq<Seq<Node>>) -> Assembly {
    Assembly { current: SectionModel { rows: a.current.rows + r, ..a.current }, ..a }
}

proof fn lemma_append_after<V>(acc: Seq<(Seq<char>, V)>, k: Seq<char>, v: V)
    requires
        forall|j: int| 0 <= j < acc.len() ==> key_lt(#[trigger] acc[j].0, k),
    ensures
        map_insert(acc, k, v) == acc.push((k, v)),
{
    lemma_lower_bound_past(acc, k, 0);
    assert(map_insert(acc, k, v) =~= acc.push((k, v)));
}

proof fn lemma_lower_bound_past<V>(acc: Seq<(Seq<char>, V)>, k: Seq<char>, i: int)
    requires
        0 <= i <= acc.len(),
        forall|j: int| 0 <= j < acc.len() ==> key_lt(#[trigger] acc[j].0, k),
    ensures
        lower_bound(acc, k, i) == acc.len(),
    decreases acc.len() - i,
{
    if i < acc.len() {
        lemma_lower_bound_past(acc, k, i + 1);
    }
}

/// Entry lines from `p` fill the dictionary in order.
proof fn lemma_entries_assemble(d: Seq<(Seq<char>, Node)>, s: Seq<char>, p: int, f: Option<Seq<Seq<char>>>, u: bool, a: Assembly)
    requires
        plain_entries(d),
        keys_sorted(a.current.dict + d),
        0 <= p,
        p + entry_lines(d).len() <= s.len(),
        s.subrange(p, p + entry_lines(d).len()) == entry_lines(d),
        advances(s, p + entry_lines(d).len(), f),
    ensures
        assemble(s, p, f, u, a) == assemble(s, p + entry_lines(d).len(), f, u, with_entries(a, d)),
        advances(s, p, f),
    decreases d.len(),
{
    if d.len() == 0 {
        assert(a.current.dict + d =~= a.current.dict);
        assert(with_entries(a, d) == a);
    } else {
        lemma_entry_lines_front(d);
        let k0 = d[0].0;
        let v0 = d[0].1;
        let l0 = k0 + " = "@ + quoted_text(v0) + "\n"@;
        let rest = d.subrange(1, d.len() as int);
        let lr = entry_lines(rest);
        lemma_at(s, p, entry_lines(d));
        assert(s.subrange(p, p + l0.len()) =~= l0) by {
            assert forall|j: int| 0 <= j < l0.len() implies s[p + j] == l0[j] by {
                assert(s[p + j] == entry_lines(d)[j]);
            }
        }
        assert(s.subrange(p + l0.len(), p + l0.len() + lr.len()) =~= lr) by {
            assert forall|j: int| 0 <= j < lr.len() implies s[p + l0.len() + j] == lr[j] by {
                assert(s[p + l0.len() + j] == entry_lines(d)[l0.len() + j]);
            }
        }
        reveal_strlit(" = ");
        reveal_strlit("\n");
        lemma_entry_line_rescan(k0, v0, s, p, f);
        let e0 = p + k0.len() + 3 + quoted_text(v0).len();
        assert(e0 + 1 == p + l0.len());
        let a2 = apply(a, Elem::Entry(k0, v0), u);
        assert(assemble(s, p, f, u, a) == assemble(s, e0, f, u, a2));
        assert forall|j: int| 0 <= j < a.current.dict.len() implies key_lt(#[trigger] a.current.dict[j].0, k0) by {
            assert((a.current.dict + d)[j] == a.current.dict[j]);
            assert((a.current.dict + d)[a.current.dict.len() as int] == d[0]);
        }
        lemma_append_after(a.current.dict, k0, v0);
        assert(a2.current.dict == a.current.dict.push((k0, v0)));
        assert(a2.current.dict + rest =~= a.current.dict + d);
        assert forall|i: int| 0 <= i < rest.len() implies plain_key(#[trigger] rest[i].0) && rescannable(rest[i].1) by {
            assert(rest[i] == d[i + 1]);
            assert(plain_key(d[i + 1].0));
            assert(rescannable(d[i + 1].1));
        }
        assert(plain_entries(rest));
        lemma_entries_assemble(rest, s, e0 + 1, f, u, a2);
        lemma_skip_newline(s, e0, f, u, a2);
        assert(with_entries(a2, rest) == with_entries(a, d));
    }
}

/// Row lines from `p` add their rows in order.
proof fn lemma_rows_assemble(r: Seq<Seq<Node>>, s: Seq<char>, p: int, f: Option<Seq<Seq<char>>>, u: bool, a: Assembly)
    requires
        forall|i: int| 0 <= i < r.len() ==> plain_cells(#[trigger] r[i]),
        0 <= p,
        p + row_lines(r).len() <= s.len(),
        s.subrange(p, p + row_lines(r).len()) == row_lines(r),
        advances(s, p + row_lines(r).len(), f),
    ensures
        assemble(s, p, f, u, a) == assemble(s, p + row_lines(r).len(), f, u, with_rows(a, r)),
        advances(s, p, f),
    decreases r.len(),
{
    if r.len() == 0 {
        assert(a.current.rows + r =~= a.current.rows);
        assert(with_rows(a, r) == a);
    } else {
        lemma_row_lines_front(r);
        let l0 = cells_text(r[0]) + "|\n"@;
        let rest = r.subrange(1, r.len() as int);
        let lr = row_lines(rest);
        lemma_at(s, p, row_lines(r));
        assert(s.subrange(p, p + l0.len()) =~= l0) by {
            assert forall|j: int| 0 <= j < l0.len() implies s[p + j] == l0[j] by {
                assert(s[p + j] == row_lines(r)[j]);
            }
        }
        assert(s.subrange(p + l0.len(), p + l0.len() + lr.len()) =~= lr) by {
            assert forall|j: int| 0 <= j < lr.len() implies s[p + l0.len() + j] == lr[j] by {
                assert(s[p + l0.len() + j] == row_lines(r)[l0.len() + j]);
            }
        }
        lemma_row_rescan(r[0], s, p, f);
        let a2 = apply(a, Elem::Row(r[0]), u);
        assert forall|i: int| 0 <= i < rest.len() implies plain_cells(#[trigger] rest[i]) by {
            assert(rest[i] == r[i + 1]);
        }
        lemma_rows_assemble(rest, s, p + l0.len(), f, u, a2);
        assert(a2.current.rows + rest =~= a.current.rows + r);
        assert(with_rows(a2, rest) == with_rows(a, r));
    }
}

/// A section name that a header reads back: no `]`, and no blank first.
pub open spec fn plain_name(n: Seq<char>) -> bool {
    &&& forall|i: int| 0 <= i < n.len() ==> #[trigger] n[i] != ']'
    &&& n.len() > 0 ==> !is_blank(n[0])
}

/// A section that can be written: entries with plain keys in key order and
/// values that scan back, and rows of plain cells.
pub open spec fn plain_section(sm: SectionModel) -> bool {
    &&& keys_sorted(sm.dict)
    &&& plain_entries(sm.dict)
    &&& forall|i: int| 0 <= i < sm.rows.len() ==> plain_cells(#[trigger] sm.rows[i])
}

/// A document that can be written: plain sections under plain names, in
/// name order.
pub open spec fn plain_document(d: Seq<(Seq<char>, SectionModel)>) -> bool {
    &&& keys_sorted(d)
    &&& forall|i: int| 0 <= i < d.len() ==> plain_name(#[trigger] d[i].0) && plain_section(d[i].1)
}

/// A header `[name]` at `p` reads back as its name.
proof fn lemma_header(name: Seq<char>, s: Seq<char>, p: int)
    requires
        plain_name(name),
        0 <= p,
        p + name.len() + 3 <= s.len(),
        s.subrange(p, p + name.len() + 3) == "["@ + name + "]\n"@,
    ensures
        next_at(s, p, None, true) == Step::Emit(Elem::Section(name), p + 2 + name.len(), None),
        s[p + 2 + name.len()] == '\n',
        s[p] == '[',
        ws_end(s, p) == p,
        section_name_at(s, p) == (name, p + 2 + name.len()),
{
    let h = "["@ + name + "]\n"@;
    reveal_strlit("[");
    reveal_strlit("]\n");
    lemma_at(s, p, h);
    assert(s.subrange(p, p + h.len())[0] == s[p]);
    assert(s[p] == '[');
    let e = p + 1 + name.len();
    assert(s[e] == h[1 + name.len() as int]);
    assert(s[e] == ']');
    assert(s[e + 1] == h[2 + name.len() as int]);
    assert(s[p + 1] == h[1]);
    lemma_run_end_unique(s, p, p, |x: char| is_blank(x));
    lemma_run_end_unique(s, p + 1, p + 1, |x: char| is_blank(x));
    assert forall|j: int| p + 1 <= j < e implies #[trigger] s[j] != ']' by {
        assert(s[j] == h[j - p]);
        assert(h[j - p] == name[j - p - 1]);
    }
    lemma_find_from_unique(s, p + 1, e, ']');
    assert(s.subrange(p + 1, e) =~= name) by {
        assert forall|j: int| 0 <= j < name.len() implies s[p + 1 + j] == name[j] by {
            assert(s[p + 1 + j] == h[1 + j]);
        }
    }
}

/// A section's text at `p` reads back as that section.
proof fn lemma_section_assemble(name: Seq<char>, sm: SectionModel, s: Seq<char>, p: int, a: Assembly)
    requires
        plain_name(name),
        plain_section(sm),
        0 <= p,
        p + ("["@ + name + "]\n"@ + section_text(sm) + "\n"@).len() <= s.len(),
        s.subrange(p, p + ("["@ + name + "]\n"@ + section_text(sm) + "\n"@).len()) == "["@ + name + "]\n"@
            + section_text(sm) + "\n"@,
        advances(s, p + ("["@ + name + "]\n"@ + section_text(sm) + "\n"@).len(), None),
    ensures
        assemble(s, p, None, true, a) == assemble(
            s,
            p + ("["@ + name + "]\n"@ + section_text(sm) + "\n"@).len(),
            None,
            true,
            Assembly { done: close_current(a, true, false), current: sm, name: Some(name) },
        ),
{
    let h = "["@ + name + "]\n"@;
    let el = entry_lines(sm.dict);
    let rl = row_lines(sm.rows);
    let all = h + section_text(sm) + "\n"@;
    reveal_strlit("[");
    reveal_strlit("]\n");
    reveal_strlit("\n");
    assert(all =~= h + el + rl + "\n"@);
    lemma_at(s, p, all);
    let b = p + h.len();
    let r0 = b + el.len();
    let z = r0 + rl.len();
    assert(z + 1 == p + all.len());
    assert(s.subrange(p, p + h.len()) =~= h) by {
        assert forall|j: int| 0 <= j < h.len() implies s[p + j] == h[j] by {
            assert(s[p + j] == all[j]);
        }
    }
    lemma_header(name, s, p);
    assert(s.subrange(b, r0) =~= el) by {
        assert forall|j: int| 0 <= j < el.len() implies s[b + j] == el[j] by {
            assert(s[b + j] == all[h.len() + j]);
        }
    }
    assert(s.subrange(r0, z) =~= rl) by {
        assert forall|j: int| 0 <= j < rl.len() implies s[r0 + j] == rl[j] by {
            assert(s[r0 + j] == all[h.len() + el.len() + j]);
        }
    }
    assert(s[z] == all[all.len() - 1]);
    assert(s[z] == '\n');
    let a1 = apply(a, Elem::Section(name), true);
    let a2 = with_entries(a1, sm.dict);
    let a3 = with_rows(a2, sm.rows);
    lemma_skip_newline(s, z, None, true, a3);
    lemma_rows_assemble(sm.rows, s, r0, None, true, a2);
    assert(a1.current.dict + sm.dict =~= sm.dict);
    lemma_entries_assemble(sm.dict, s, b, None, true, a1);
    lemma_skip_newline(s, b - 1, None, true, a1);
    assert(a3.current.dict =~= sm.dict);
    assert(a3.current.rows =~= sm.rows);
    assert(a3 == Assembly { done: close_current(a, true, false), current: sm, name: Some(name) });
}

/// Reading from the start of sections `i` on goes on to a later position, or ends.
proof fn lemma_next_advances(d: Seq<(Seq<char>, SectionModel)>, i: int, s: Seq<char>, q: int)
    requires
        plain_blocks(d),
        0 <= i <= d.len(),
        0 <= q <= s.len(),
        s.subrange(q, s.len() as int) == document_text(d.subrange(i, d.len() as int)),
    ensures
        advances(s, q, None),
        block_start(s, q),
{
    let next = d.subrange(i, d.len() as int);
    reveal_strlit("[");
    reveal_strlit("]\n");
    if i < d.len() {
        lemma_document_front(next);
        let n2 = d[i].0;
        assert(next[0] == d[i]);
        let h2 = "["@ + n2 + "]\n"@;
        assert(h2.len() == n2.len() + 3);
        let t = document_text(next);
        assert(t.len() >= h2.len());
        assert(s.len() - q == t.len());
        assert(s.subrange(q, q + h2.len()) =~= h2) by {
            assert forall|j: int| 0 <= j < h2.len() implies s[q + j] == h2[j] by {
                assert(s.subrange(q, s.len() as int)[j] == s[q + j]);
                assert(t[j] == h2[j]);
            }
        }
        lemma_header(n2, s, q);
    } else {
        assert(next =~= Seq::<(Seq<char>, SectionModel)>::empty());
        assert(document_text(next) =~= Seq::<char>::empty());
        assert(s.subrange(q, s.len() as int).len() == 0);
        assert(q == s.len());
        lemma_run_end_unique(s, q, q, |x: char| is_blank(x));
    }
}

/// Closing section `i - 1` leaves the first `i` sections done.
proof fn lemma_done_so_far(d: Seq<(Seq<char>, SectionModel)>, i: int, a: Assembly)
    requires
        0 <= i < d.len(),
        i == 0 ==> a == crate::grammar::initial_assembly(),
        i > 0 ==> a == (Assembly { done: fold_sections(d.subrange(0, i - 1)), current: d[i - 1].1, name: Some(d[i - 1].0) }),
    ensures
        close_current(a, true, false) == fold_sections(d.subrange(0, i)),
{
    if i == 0 {
        assert(d.subrange(0, 0) =~= Seq::<(Seq<char>, SectionModel)>::empty());
    } else {
        assert(d.subrange(0, i).drop_last() =~= d.subrange(0, i - 1));
    }
}

/// Sections `i` on of `d`, read from `p` after the ones before them, give `d`.
#[verifier::rlimit(100)]
#[verifier::spinoff_prover]
proof fn lemma_sections_assemble(d: Seq<(Seq<char>, SectionModel)>, i: int, s: Seq<char>, p: int, a: Assembly)
    requires
        plain_blocks(d),
        d.len() >= 1,
        0 <= i <= d.len(),
        0 <= p <= s.len(),
        s.subrange(p, s.len() as int) == document_text(d.subrange(i, d.len() as int)),
        i == 0 ==> a == crate::grammar::initial_assembly(),
        i > 0 ==> a == (Assembly { done: fold_sections(d.subrange(0, i - 1)), current: d[i - 1].1, name: Some(d[i - 1].0) }),
    ensures
        (assemble(s, p, None, true, a) == Ok::<_, crate::grammar::Fault>(fold_sections(d))),
    decreases d.len() - i,
{
    let rest = d.subrange(i, d.len() as int);
    if i == d.len() {
        assert(rest =~= Seq::<(Seq<char>, SectionModel)>::empty());
        assert(p == s.len());
        lemma_run_end_unique(s, p, p, |x: char| is_blank(x));
        assert(d.drop_last() =~= d.subrange(0, i - 1));
    } else {
        lemma_document_front(rest);
        let name = d[i].0;
        let sm = d[i].1;
        assert(rest[0] == d[i]);
        let hs = "["@ + name + "]\n"@ + section_text(sm) + "\n"@;
        let next = rest.subrange(1, rest.len() as int);
        assert(next =~= d.subrange(i + 1, d.len() as int));
        let tail = document_text(next);
        assert(document_text(rest) == hs + tail);
        assert(s.subrange(p, s.len() as int).len() == s.len() - p);
        assert(s.len() - p == hs.len() + tail.len());
        lemma_at(s, p, hs + tail);
        assert(s.subrange(p, p + hs.len()) =~= hs) by {
            assert forall|j: int| 0 <= j < hs.len() implies s[p + j] == hs[j] by {
                assert(s.subrange(p, s.len() as int)[j] == s[p + j]);
                assert((hs + tail)[j] == hs[j]);
            }
        }
        assert(s.subrange(p + hs.len(), s.len() as int) =~= tail) by {
            assert forall|j: int| 0 <= j < tail.len() implies s[p + hs.len() + j] == tail[j] by {
                assert(s.subrange(p, s.len() as int)[hs.len() + j] == s[p + hs.len() + j]);
                assert((hs + tail)[hs.len() + j] == tail[j]);
            }
        }
        let q = p + hs.len();
        lemma_next_advances(d, i + 1, s, q);
        lemma_section_assemble(name, sm, s, p, a);
        let done = close_current(a, true, false);
        lemma_done_so_far(d, i, a);
        lemma_sections_assemble(d, i + 1, s, q, Assembly { done, current: sm, name: Some(name) });
    }
}

/// A document whose names, keys, values and cells can all be written reads
/// back from its canonical text as itself; so the text of what is read back
/// is again that text.
pub proof fn lemma_document_text_rescans(d: Seq<(Seq<char>, SectionModel)>)
    requires
        d.len() >= 1,
        plain_document(d),
    ensures
        (document(document_text(d), None) == Ok::<_, crate::grammar::Fault>(d)),
{
    lemma_blocks_read(d);
    lemma_fold_sorted(d);
}

/// Section blocks, one after the other and in any order, read as their
/// sections, each replacing an earlier one of the same name.
pub proof fn lemma_blocks_read(d: Seq<(Seq<char>, SectionModel)>)
    requires
        d.len() >= 1,
        plain_blocks(d),
    ensures
        (document(document_text(d), None) == Ok::<_, crate::grammar::Fault>(fold_sections(d))),
{
    let s = document_text(d);
    assert(s.subrange(0, s.len() as int) =~= s);
    assert(d.subrange(0, d.len() as int) =~= d);
    lemma_sections_assemble(d, 0, s, 0, crate::grammar::initial_assembly());
}

/// Sections already in name order, without a name twice, fold to themselves.
proof fn lemma_fold_sorted(d: Seq<(Seq<char>, SectionModel)>)
    requires
        keys_sorted(d),
    ensures
        fold_sections(d) == d,
    decreases d.len(),
{
    if d.len() > 0 {
        let w = d.drop_last();
        assert(keys_sorted(w)) by {
            assert forall|a: int, b: int| 0 <= a < b < w.len() implies #[trigger] key_lt(w[a].0, w[b].0) by {
                assert(key_lt(d[a].0, d[b].0));
            }
        }
        lemma_fold_sorted(w);
        assert forall|j: int| 0 <= j < w.len() implies key_lt(#[trigger] w[j].0, d.last().0) by {
            assert(key_lt(d[j].0, d[d.len() - 1].0));
        }
        lemma_append_after(w, d.last().0, d.last().1);
        assert(w.push((d.last().0, d.last().1)) =~= d);
    }
}

/// The sections read from blocks in order: each replaces an earlier one of
/// the same name.
pub open spec fn fold_sections(bs: Seq<(Seq<char>, SectionModel)>) -> Seq<(Seq<char>, SectionModel)>
    decreases bs.len(),
{
    if bs.len() == 0 {
        Seq::empty()
    } else {
        map_insert(fold_sections(bs.drop_last()), bs.last().0, bs.last().1)
    }
}

/// Blocks that can be written: plain sections under plain names, in any
/// order and possibly under one name twice.
pub open spec fn plain_blocks(d: Seq<(Seq<char>, SectionModel)>) -> bool {
    forall|i: int| 0 <= i < d.len() ==> plain_name(#[trigger] d[i].0) && plain_section(d[i].1)
}

/// The last position at which `bs` names a section `k`, or `-1`.
pub open spec fn last_index(bs: Seq<(Seq<char>, SectionModel)>, k: Seq<char>) -> int
    decreases bs.len(),
{
    if bs.len() == 0 {
        -1
    } else if bs.last().0 == k {
        bs.len() - 1
    } else {
        last_index(bs.drop_last(), k)
    }
}

proof fn lemma_fold_lookup(bs: Seq<(Seq<char>, SectionModel)>, k: Seq<char>)
    ensures
        keys_sorted(fold_sections(bs)),
        -1 <= last_index(bs, k) < bs.len(),
        map_lookup(fold_sections(bs), k) == if last_index(bs, k) >= 0 {
            Some(bs[last_index(bs, k)].1)
        } else {
            None::<SectionModel>
        },
    decreases bs.len(),
{
    if bs.len() == 0 {
        assert(fold_sections(bs) =~= Seq::<(Seq<char>, SectionModel)>::empty());
    } else {
        let w = bs.drop_last();
        lemma_fold_lookup(w, k);
        crate::sorted_map::lemma_insert_sorted(fold_sections(w), bs.last().0, bs.last().1);
        crate::sorted_map::lemma_lookup_insert(fold_sections(w), bs.last().0, bs.last().1, k);
        if bs.last().0 != k && last_index(w, k) >= 0 {
            assert(w[last_index(w, k)] == bs[last_index(w, k)]);
        }
    }
}

/// Without a filter, a name given to more than one section block keeps
/// only its last block: what the document holds under `k` is the section
/// of the last block named `k`, and nothing when no block is.
pub proof fn lemma_last_block_wins(d: Seq<(Seq<char>, SectionModel)>, k: Seq<char>)
    requires
        d.len() >= 1,
        plain_blocks(d),
    ensures
        document(document_text(d), None) matches Ok(r) && map_lookup(r, k) == if last_index(d, k) >= 0 {
            Some(d[last_index(d, k)].1)
        } else {
            None::<SectionModel>
        },
{
    lemma_blocks_read(d);
    lemma_fold_lookup(d, k);
}

/// Text without a line break.
pub open spec fn one_line(t: Seq<char>) -> bool {
    forall|i: int| 0 <= i < t.len() ==> #[trigger] t[i] != '\n'
}

/// A section whose every entry and row is written on one line.
pub open spec fn one_line_section(sm: SectionModel) -> bool {
    &&& forall|i: int| 0 <= i < sm.dict.len() ==> one_line(quoted_text(#[trigger] sm.dict[i].1))
    &&& forall|i: int| 0 <= i < sm.rows.len() ==> one_line(cells_text(#[trigger] sm.rows[i]))
}

/// While lines are skipped, a line `l` at `p` that starts with neither a
/// blank, a line break, `\r` nor `[` is passed over whole.
proof fn lemma_skip_line(s: Seq<char>, p: int, l: Seq<char>, f: Option<Seq<Seq<char>>>)
    requires
        0 <= p,
        p + l.len() <= s.len(),
        s.subrange(p, p + l.len()) == l,
        l.len() >= 2,
        l.last() == '\n',
        one_line(l.drop_last()),
        !is_blank(l[0]) && l[0] != '[' && l[0] != '\r',
    ensures
        next_at(s, p, f, false) == next_at(s, p + l.len(), f, false),
{
    lemma_at(s, p, l);
    assert(s[p] == l[0]);
    lemma_run_end_unique(s, p, p, |x: char| is_blank(x));
    assert forall|i: int| p <= i < p + l.len() - 1 implies #[trigger] s[i] != '\n' by {
        assert(s[i] == l[i - p]);
        assert(l[i - p] == l.drop_last()[i - p]);
    }
    assert(s[p + l.len() - 1] == l[l.len() - 1]);
    lemma_find_from_unique(s, p, p + l.len() - 1, '\n');
    assert(newline_end(s, p) == p);
}

proof fn lemma_skip_entries(d: Seq<(Seq<char>, Node)>, s: Seq<char>, p: int, f: Option<Seq<Seq<char>>>)
    requires
        plain_entries(d),
        forall|i: int| 0 <= i < d.len() ==> one_line(quoted_text(#[trigger] d[i].1)),
        0 <= p,
        p + entry_lines(d).len() <= s.len(),
        s.subrange(p, p + entry_lines(d).len()) == entry_lines(d),
    ensures
        next_at(s, p, f, false) == next_at(s, p + entry_lines(d).len(), f, false),
    decreases d.len(),
{
    if d.len() > 0 {
        lemma_entry_lines_front(d);
        let k0 = d[0].0;
        let q0 = quoted_text(d[0].1);
        let l0 = k0 + " = "@ + q0 + "\n"@;
        let rest = d.subrange(1, d.len() as int);
        let lr = entry_lines(rest);
        reveal_strlit(" = ");
        reveal_strlit("\n");
        lemma_at(s, p, entry_lines(d));
        assert(s.subrange(p, p + l0.len()) =~= l0) by {
            assert forall|j: int| 0 <= j < l0.len() implies s[p + j] == l0[j] by {
                assert(s[p + j] == entry_lines(d)[j]);
            }
        }
        assert(s.subrange(p + l0.len(), p + l0.len() + lr.len()) =~= lr) by {
            assert forall|j: int| 0 <= j < lr.len() implies s[p + l0.len() + j] == lr[j] by {
                assert(s[p + l0.len() + j] == entry_lines(d)[l0.len() + j]);
            }
        }
        assert(plain_key(k0));
        assert(one_line(q0));
        assert(l0[0] == k0[0]);
        assert(is_key_char(k0[0]));
        assert(one_line(l0.drop_last())) by {
            assert forall|i: int| 0 <= i < l0.drop_last().len() implies #[trigger] l0.drop_last()[i] != '\n' by {
                if i < k0.len() {
                    assert(l0[i] == k0[i]);
                    assert(is_key_char(k0[i]));
                } else if i >= k0.len() + 3 {
                    assert(l0[i] == q0[i - k0.len() - 3]);
                }
            }
        }
        lemma_skip_line(s, p, l0, f);
        assert forall|i: int| 0 <= i < rest.len() implies plain_key(#[trigger] rest[i].0) && rescannable(rest[i].1) by {
            assert(rest[i] == d[i + 1]);
            assert(plain_key(d[i + 1].0));
            assert(rescannable(d[i + 1].1));
        }
        assert forall|i: int| 0 <= i < rest.len() implies one_line(quoted_text(#[trigger] rest[i].1)) by {
            assert(rest[i] == d[i + 1]);
        }
        lemma_skip_entries(rest, s, p + l0.len(), f);
    }
}

proof fn lemma_skip_rows(r: Seq<Seq<Node>>, s: Seq<char>, p: int, f: Option<Seq<Seq<char>>>)
    requires
        forall|i: int| 0 <= i < r.len() ==> one_line(cells_text(#[trigger] r[i])),
        0 <= p,
        p + row_lines(r).len() <= s.len(),
        s.subrange(p, p + row_lines(r).len()) == row_lines(r),
    ensures
        next_at(s, p, f, false) == next_at(s, p + row_lines(r).len(), f, false),
    decreases r.len(),
{
    if r.len() > 0 {
        lemma_row_lines_front(r);
        let c = cells_text(r[0]);
        let l0 = c + "|\n"@;
        let rest = r.subrange(1, r.len() as int);
        let lr = row_lines(rest);
        reveal_strlit("|\n");
        reveal_strlit("| ");
        lemma_at(s, p, row_lines(r));
        assert(s.subrange(p, p + l0.len()) =~= l0) by {
            assert forall|j: int| 0 <= j < l0.len() implies s[p + j] == l0[j] by {
                assert(s[p + j] == row_lines(r)[j]);
            }
        }
        assert(s.subrange(p + l0.len(), p + l0.len() + lr.len()) =~= lr) by {
            assert forall|j: int| 0 <= j < lr.len() implies s[p + l0.len() + j] == lr[j] by {
                assert(s[p + l0.len() + j] == row_lines(r)[l0.len() + j]);
            }
        }
        assert(l0[0] == '|') by {
            if r[0].len() > 0 {
                lemma_cells_front(r[0]);
            } else {
                assert(c =~= Seq::<char>::empty());
            }
        }
        assert(one_line(c));
        assert(one_line(l0.drop_last())) by {
            assert forall|i: int| 0 <= i < l0.drop_last().len() implies #[trigger] l0.drop_last()[i] != '\n' by {
                if i < c.len() {
                    assert(l0[i] == c[i]);
                }
            }
        }
        lemma_skip_line(s, p, l0, f);
        assert forall|i: int| 0 <= i < rest.len() implies one_line(cells_text(#[trigger] rest[i])) by {
            assert(rest[i] == r[i + 1]);
        }
        lemma_skip_rows(rest, s, p + l0.len(), f);
    }
}

/// Where the next block starts: the end of the text or a header.
pub open spec fn block_start(s: Seq<char>, q: int) -> bool {
    q == s.len() || (0 <= q < s.len() && s[q] == '[')
}

proof fn lemma_block_start_accepting(s: Seq<char>, q: int, f: Option<Seq<Seq<char>>>)
    requires
        0 <= q <= s.len(),
        block_start(s, q),
    ensures
        next_at(s, q, f, false) == next_at(s, q, f, true),
{
    lemma_run_end_unique(s, q, q, |x: char| is_blank(x));
}

/// A header whose name the filter does not hold starts the skipping of lines.
proof fn lemma_rejected_header(name: Seq<char>, s: Seq<char>, p: int, rest: Seq<Seq<char>>)
    requires
        plain_name(name),
        rest.len() > 0,
        first_index(rest, name, 0) >= rest.len(),
        0 <= p,
        p + name.len() + 3 <= s.len(),
        s.subrange(p, p + name.len() + 3) == "["@ + name + "]\n"@,
    ensures
        next_at(s, p, Some(rest), true) == next_at(s, p + name.len() + 3, Some(rest), false),
{
    lemma_header(name, s, p);
    let p2 = p + 2 + name.len();
    lemma_find_from_unique(s, p2, p2, '\n');
    assert(line_end(s, p2) == p2 + 1);
    assert(newline_end(s, p) == p);
}

/// The lines of a one-line section body and its blank line are skipped.
proof fn lemma_skip_body(sm: SectionModel, s: Seq<char>, b: int, f: Option<Seq<Seq<char>>>)
    requires
        plain_section(sm),
        one_line_section(sm),
        0 <= b,
        b + (section_text(sm) + "\n"@).len() <= s.len(),
        s.subrange(b, b + (section_text(sm) + "\n"@).len()) == section_text(sm) + "\n"@,
        block_start(s, b + (section_text(sm) + "\n"@).len()),
    ensures
        next_at(s, b, f, false) == next_at(s, b + (section_text(sm) + "\n"@).len(), f, true),
{
    let el = entry_lines(sm.dict);
    let rl = row_lines(sm.rows);
    let all = section_text(sm) + "\n"@;
    reveal_strlit("\n");
    assert(all =~= el + rl + "\n"@);
    lemma_at(s, b, all);
    let r0 = b + el.len();
    let z = r0 + rl.len();
    assert(s.subrange(b, r0) =~= el) by {
        assert forall|j: int| 0 <= j < el.len() implies s[b + j] == el[j] by {
            assert(s[b + j] == all[j]);
        }
    }
    assert(s.subrange(r0, z) =~= rl) by {
        assert forall|j: int| 0 <= j < rl.len() implies s[r0 + j] == rl[j] by {
            assert(s[r0 + j] == all[el.len() + j]);
        }
    }
    lemma_skip_entries(sm.dict, s, b, f);
    lemma_skip_rows(sm.rows, s, r0, f);
    assert(s[z] == all[all.len() - 1]);
    lemma_run_end_unique(s, z, z, |x: char| is_blank(x));
    assert(next_at(s, z, f, false) == next_at(s, z + 1, f, false));
    lemma_block_start_accepting(s, z + 1, f);
}

/// A section block whose name the filter does not hold is skipped line by
/// line, up to the next block.
proof fn lemma_section_rejected(name: Seq<char>, sm: SectionModel, s: Seq<char>, p: int, rest: Seq<Seq<char>>)
    requires
        plain_name(name),
        plain_section(sm),
        one_line_section(sm),
        rest.len() > 0,
        first_index(rest, name, 0) >= rest.len(),
        0 <= p,
        p + ("["@ + name + "]\n"@ + section_text(sm) + "\n"@).len() <= s.len(),
        s.subrange(p, p + ("["@ + name + "]\n"@ + section_text(sm) + "\n"@).len()) == "["@ + name + "]\n"@
            + section_text(sm) + "\n"@,
        block_start(s, p + ("["@ + name + "]\n"@ + section_text(sm) + "\n"@).len()),
    ensures
        next_at(s, p, Some(rest), true) == next_at(
            s,
            p + ("["@ + name + "]\n"@ + section_text(sm) + "\n"@).len(),
            Some(rest),
            true,
        ),
{
    let h = "["@ + name + "]\n"@;
    let body = section_text(sm) + "\n"@;
    let all = h + section_text(sm) + "\n"@;
    reveal_strlit("[");
    reveal_strlit("]\n");
    assert(all =~= h + body);
    assert(h.len() == name.len() + 3);
    lemma_at(s, p, all);
    assert(s.subrange(p, p + h.len()) =~= h) by {
        assert forall|j: int| 0 <= j < h.len() implies s[p + j] == h[j] by {
            assert(s[p + j] == all[j]);
        }
    }
    let b = p + h.len();
    assert(s.subrange(b, b + body.len()) =~= body) by {
        assert forall|j: int| 0 <= j < body.len() implies s[b + j] == body[j] by {
            assert(s[b + j] == all[h.len() + j]);
        }
    }
    lemma_rejected_header(name, s, p, rest);
    lemma_skip_body(sm, s, b, Some(rest));
}

/// A section block whose name the filter holds is read, and its name is
/// struck off the filter.
proof fn lemma_section_accepted(name: Seq<char>, sm: SectionModel, s: Seq<char>, p: int, rest: Seq<Seq<char>>, a: Assembly)
    requires
        plain_name(name),
        plain_section(sm),
        rest.len() > 0,
        first_index(rest, name, 0) < rest.len(),
        0 <= p,
        p + ("["@ + name + "]\n"@ + section_text(sm) + "\n"@).len() <= s.len(),
        s.subrange(p, p + ("["@ + name + "]\n"@ + section_text(sm) + "\n"@).len()) == "["@ + name + "]\n"@
            + section_text(sm) + "\n"@,
        advances(
            s,
            p + ("["@ + name + "]\n"@ + section_text(sm) + "\n"@).len(),
            Some(rest.remove(first_index(rest, name, 0))),
        ),
    ensures
        next_at(s, p, Some(rest), true) == Step::Emit(
            Elem::Section(name),
            p + 2 + name.len(),
            Some(rest.remove(first_index(rest, name, 0))),
        ),
        assemble(s, p, Some(rest), false, a) == assemble(
            s,
            p + ("["@ + name + "]\n"@ + section_text(sm) + "\n"@).len(),
            Some(rest.remove(first_index(rest, name, 0))),
            false,
            Assembly { done: close_current(a, false, false), current: sm, name: Some(name) },
        ),
{
    let f = Some(rest.remove(first_index(rest, name, 0)));
    let h = "["@ + name + "]\n"@;
    let el = entry_lines(sm.dict);
    let rl = row_lines(sm.rows);
    let all = h + section_text(sm) + "\n"@;
    reveal_strlit("[");
    reveal_strlit("]\n");
    reveal_strlit("\n");
    assert(all =~= h + el + rl + "\n"@);
    lemma_at(s, p, all);
    let b = p + h.len();
    let r0 = b + el.len();
    let z = r0 + rl.len();
    assert(s.subrange(p, p + h.len()) =~= h) by {
        assert forall|j: int| 0 <= j < h.len() implies s[p + j] == h[j] by {
            assert(s[p + j] == all[j]);
        }
    }
    lemma_header(name, s, p);
    assert(newline_end(s, p) == p);
    assert(s.subrange(b, r0) =~= el) by {
        assert forall|j: int| 0 <= j < el.len() implies s[b + j] == el[j] by {
            assert(s[b + j] == all[h.len() + j]);
        }
    }
    assert(s.subrange(r0, z) =~= rl) by {
        assert forall|j: int| 0 <= j < rl.len() implies s[r0 + j] == rl[j] by {
            assert(s[r0 + j] == all[h.len() + el.len() + j]);
        }
    }
    assert(s[z] == all[all.len() - 1]);
    let a1 = apply(a, Elem::Section(name), false);
    let a2 = with_entries(a1, sm.dict);
    let a3 = with_rows(a2, sm.rows);
    lemma_skip_newline(s, z, f, false, a3);
    lemma_rows_assemble(sm.rows, s, r0, f, false, a2);
    assert(a1.current.dict + sm.dict =~= sm.dict);
    lemma_entries_assemble(sm.dict, s, b, f, false, a1);
    lemma_skip_newline(s, b - 1, f, false, a1);
    assert(a3.current.dict =~= sm.dict);
    assert(a3.current.rows =~= sm.rows);
    assert(a3 == Assembly { done: close_current(a, false, false), current: sm, name: Some(name) });
}

/// What filtered reading keeps of blocks `i` on, after the assembly `a`,
/// with the accepted names `rest` not met yet: a block whose name `rest`
/// holds is read and its name struck off; any other block is skipped;
/// reading stops once `rest` is empty.
pub open spec fn pick(
    bs: Seq<(Seq<char>, SectionModel)>,
    i: int,
    rest: Seq<Seq<char>>,
    a: Assembly,
) -> Seq<(Seq<char>, SectionModel)>
    decreases bs.len() - i,
{
    if i < 0 || i >= bs.len() || rest.len() == 0 {
        close_current(a, false, true)
    } else if first_index(rest, bs[i].0, 0) < rest.len() {
        pick(
            bs,
            i + 1,
            rest.remove(first_index(rest, bs[i].0, 0)),
            Assembly { done: close_current(a, false, false), current: bs[i].1, name: Some(bs[i].0) },
        )
    } else {
        pick(bs, i + 1, rest, a)
    }
}

/// Blocks `i` on, read with the accepted names `rest`, give `pick`.
#[verifier::rlimit(100)]
#[verifier::spinoff_prover]
proof fn lemma_filtered_blocks(
    d: Seq<(Seq<char>, SectionModel)>,
    i: int,
    s: Seq<char>,
    p: int,
    rest: Seq<Seq<char>>,
    a: Assembly,
)
    requires
        plain_blocks(d),
        forall|j: int| 0 <= j < d.len() ==> one_line_section(#[trigger] d[j].1),
        0 <= i <= d.len(),
        0 <= p <= s.len(),
        s.subrange(p, s.len() as int) == document_text(d.subrange(i, d.len() as int)),
    ensures
        (assemble(s, p, Some(rest), false, a) == Ok::<_, crate::grammar::Fault>(pick(d, i, rest, a))),
        advances(s, p, Some(rest)),
    decreases d.len() - i,
{
    let tail_all = d.subrange(i, d.len() as int);
    if i == d.len() {
        assert(tail_all =~= Seq::<(Seq<char>, SectionModel)>::empty());
        assert(document_text(tail_all) =~= Seq::<char>::empty());
        assert(s.subrange(p, s.len() as int).len() == 0);
        lemma_run_end_unique(s, p, p, |x: char| is_blank(x));
    } else {
        lemma_document_front(tail_all);
        let name = d[i].0;
        let sm = d[i].1;
        assert(tail_all[0] == d[i]);
        let hs = "["@ + name + "]\n"@ + section_text(sm) + "\n"@;
        let next = tail_all.subrange(1, tail_all.len() as int);
        assert(next =~= d.subrange(i + 1, d.len() as int));
        let tail = document_text(next);
        assert(document_text(tail_all) == hs + tail);
        assert(s.subrange(p, s.len() as int).len() == s.len() - p);
        assert(s.len() - p == hs.len() + tail.len());
        lemma_at(s, p, hs + tail);
        assert(s.subrange(p, p + hs.len()) =~= hs) by {
            assert forall|j: int| 0 <= j < hs.len() implies s[p + j] == hs[j] by {
                assert(s.subrange(p, s.len() as int)[j] == s[p + j]);
                assert((hs + tail)[j] == hs[j]);
            }
        }
        assert(s.subrange(p + hs.len(), s.len() as int) =~= tail) by {
            assert forall|j: int| 0 <= j < tail.len() implies s[p + hs.len() + j] == tail[j] by {
                assert(s.subrange(p, s.len() as int)[hs.len() + j] == s[p + hs.len() + j]);
                assert((hs + tail)[hs.len() + j] == tail[j]);
            }
        }
        let q = p + hs.len();
        lemma_next_advances(d, i + 1, s, q);
        assert(plain_name(name) && plain_section(sm));
        assert(one_line_section(sm));
        reveal_strlit("[");
        reveal_strlit("]\n");
        let h = "["@ + name + "]\n"@;
        assert(s.subrange(p, p + h.len()) =~= h) by {
            assert forall|j: int| 0 <= j < h.len() implies s[p + j] == h[j] by {
                assert(s[p + j] == hs[j]);
            }
        }
        lemma_header(name, s, p);
        assert(newline_end(s, p) == p);
        if rest.len() == 0 {
            assert(next_at(s, p, Some(rest), true) == Step::End);
        } else if first_index(rest, name, 0) < rest.len() {
            let rest2 = rest.remove(first_index(rest, name, 0));
            let a2 = Assembly { done: close_current(a, false, false), current: sm, name: Some(name) };
            lemma_filtered_blocks(d, i + 1, s, q, rest2, a2);
            lemma_section_accepted(name, sm, s, p, rest, a);
        } else {
            lemma_filtered_blocks(d, i + 1, s, q, rest, a);
            lemma_section_rejected(name, sm, s, p, rest);
            assert(assemble(s, p, Some(rest), false, a) == assemble(s, q, Some(rest), false, a));
        }
    }
}

/// The first position at or after `i` of a block named `k`, or the length.
pub open spec fn first_block(bs: Seq<(Seq<char>, SectionModel)>, k: Seq<char>, i: int) -> int
    decreases bs.len() - i,
{
    if 0 <= i < bs.len() && bs[i].0 != k {
        first_block(bs, k, i + 1)
    } else {
        i
    }
}

/// `names` holds `k` exactly once.
pub open spec fn named_once(names: Seq<Seq<char>>, k: Seq<char>) -> bool {
    &&& exists|j: int| 0 <= j < names.len() && names[j] == k
    &&& forall|j1: int, j2: int|
        0 <= j1 < names.len() && 0 <= j2 < names.len() && #[trigger] names[j1] == k && #[trigger] names[j2] == k
            ==> j1 == j2
}

proof fn lemma_first_block(bs: Seq<(Seq<char>, SectionModel)>, k: Seq<char>, i: int)
    requires
        0 <= i <= bs.len(),
    ensures
        i <= first_block(bs, k, i) <= bs.len(),
        first_block(bs, k, i) < bs.len() ==> bs[first_block(bs, k, i)].0 == k,
        forall|j: int| i <= j < first_block(bs, k, i) ==> #[trigger] bs[j].0 != k,
    decreases bs.len() - i,
{
    if i < bs.len() && bs[i].0 != k {
        lemma_first_block(bs, k, i + 1);
    }
}

proof fn lemma_first_index(names: Seq<Seq<char>>, x: Seq<char>, i: int)
    requires
        0 <= i <= names.len(),
    ensures
        i <= first_index(names, x, i) <= names.len(),
        first_index(names, x, i) < names.len() ==> names[first_index(names, x, i)] == x,
        forall|j: int| i <= j < first_index(names, x, i) ==> #[trigger] names[j] != x,
    decreases names.len() - i,
{
    if i < names.len() && names[i] != x {
        lemma_first_index(names, x, i + 1);
    }
}

/// Closing the current section under another name than `k` leaves what `k`
/// looks up; closing it under `k` makes `k` look up the current section.
proof fn lemma_close_lookup(a: Assembly, at_end: bool, k: Seq<char>)
    requires
        keys_sorted(a.done),
    ensures
        keys_sorted(close_current(a, false, at_end)),
        a.name != Some(k) ==> map_lookup(close_current(a, false, at_end), k) == map_lookup(a.done, k),
        a.name == Some(k) ==> map_lookup(close_current(a, false, at_end), k) == Some(a.current),
{
    match a.name {
        Some(n) => {
            crate::sorted_map::lemma_insert_sorted(a.done, n, a.current);
            crate::sorted_map::lemma_lookup_insert(a.done, n, a.current, k);
        },
        None => {},
    }
}

/// Once the block named `k` is read and `k` struck off, what `k` looks up stays.
proof fn lemma_pick_after(
    d: Seq<(Seq<char>, SectionModel)>,
    i: int,
    rest: Seq<Seq<char>>,
    a: Assembly,
    k: Seq<char>,
    v: SectionModel,
)
    requires
        0 <= i,
        keys_sorted(a.done),
        forall|j: int| 0 <= j < rest.len() ==> #[trigger] rest[j] != k,
        (a.name == Some(k) && a.current == v) || (a.name != Some(k) && map_lookup(a.done, k) == Some(v)),
    ensures
        map_lookup(pick(d, i, rest, a), k) == Some(v),
    decreases d.len() - i,
{
    lemma_close_lookup(a, true, k);
    lemma_close_lookup(a, false, k);
    if i < d.len() && rest.len() > 0 {
        lemma_first_index(rest, d[i].0, 0);
        let fi = first_index(rest, d[i].0, 0);
        if fi < rest.len() {
            let rest2 = rest.remove(fi);
            assert forall|j: int| 0 <= j < rest2.len() implies #[trigger] rest2[j] != k by {
                if j < fi {
                    assert(rest2[j] == rest[j]);
                } else {
                    assert(rest2[j] == rest[j + 1]);
                }
            }
            assert(d[i].0 != k);
            lemma_pick_after(
                d,
                i + 1,
                rest2,
                Assembly { done: close_current(a, false, false), current: d[i].1, name: Some(d[i].0) },
                k,
                v,
            );
        } else {
            lemma_pick_after(d, i + 1, rest, a, k, v);
        }
    }
}

/// Before the first block named `k`, nothing is kept under `k`; that block
/// is read, since `k` is still to be met.
proof fn lemma_pick_before(
    d: Seq<(Seq<char>, SectionModel)>,
    i: int,
    rest: Seq<Seq<char>>,
    a: Assembly,
    k: Seq<char>,
    j0: int,
)
    requires
        0 <= i <= j0 < d.len(),
        d[j0].0 == k,
        forall|j: int| i <= j < j0 ==> #[trigger] d[j].0 != k,
        keys_sorted(a.done),
        map_lookup(a.done, k) is None,
        a.name != Some(k),
        named_once(rest, k),
    ensures
        map_lookup(pick(d, i, rest, a), k) == Some(d[j0].1),
    decreases j0 - i,
{
    lemma_close_lookup(a, false, k);
    let jk = choose|j: int| 0 <= j < rest.len() && rest[j] == k;
    assert(rest.len() > 0);
    lemma_first_index(rest, d[i].0, 0);
    let fi = first_index(rest, d[i].0, 0);
    let a2 = Assembly { done: close_current(a, false, false), current: d[i].1, name: Some(d[i].0) };
    if i == j0 {
        assert(fi <= jk);
        let rest2 = rest.remove(fi);
        assert forall|j: int| 0 <= j < rest2.len() implies #[trigger] rest2[j] != k by {
            if j < fi {
                assert(rest2[j] == rest[j]);
            } else {
                assert(rest2[j] == rest[j + 1]);
            }
        }
        lemma_pick_after(d, i + 1, rest2, a2, k, d[j0].1);
    } else if fi < rest.len() {
        let rest2 = rest.remove(fi);
        assert(rest[fi] != k);
        let jk2 = if jk < fi { jk } else { jk - 1 };
        assert(jk != fi);
        assert(rest2[jk2] == k);
        assert forall|j1: int, j2: int|
            0 <= j1 < rest2.len() && 0 <= j2 < rest2.len() && #[trigger] rest2[j1] == k && #[trigger] rest2[j2] == k
                implies j1 == j2 by {
            let i1 = if j1 < fi { j1 } else { j1 + 1 };
            let i2 = if j2 < fi { j2 } else { j2 + 1 };
            assert(rest2[j1] == rest[i1]);
            assert(rest2[j2] == rest[i2]);
        }
        lemma_pick_before(d, i + 1, rest2, a2, k, j0);
    } else {
        lemma_pick_before(d, i + 1, rest, a, k, j0);
    }
}

/// With a filter that names `k` once, a name given to more than one section
/// block keeps only its first block: what the document holds under `k` is
/// the section of the first block named `k`. Every block is written with
/// each entry and row on one line, as skipped sections are passed over
/// line by line.
pub proof fn lemma_first_block_wins(d: Seq<(Seq<char>, SectionModel)>, names: Seq<Seq<char>>, k: Seq<char>)
    requires
        plain_blocks(d),
        forall|j: int| 0 <= j < d.len() ==> one_line_section(#[trigger] d[j].1),
        named_once(names, k),
        first_block(d, k, 0) < d.len(),
    ensures
        document(document_text(d), Some(names)) matches Ok(r) && map_lookup(r, k) == Some(
            d[first_block(d, k, 0)].1,
        ),
{
    let s = document_text(d);
    assert(s.subrange(0, s.len() as int) =~= s);
    assert(d.subrange(0, d.len() as int) =~= d);
    lemma_filtered_blocks(d, 0, s, 0, names, crate::grammar::initial_assembly());
    lemma_first_block(d, k, 0);
    let j0 = first_block(d, k, 0);
    let a0 = crate::grammar::initial_assembly();
    assert(keys_sorted(a0.done));
    crate::sorted_map::lemma_lookup_absent(a0.done, k);
    lemma_pick_before(d, 0, names, a0, k, j0);
}

} // verus!
