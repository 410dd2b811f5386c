//! What reading produces: values, keys, names and cells in the forms that
//! the canonical text writes back.

use vstd::prelude::*;
use crate::grammar::{
    apply, assemble, close_current, document, initial_assembly, line_end, line_end_of, newline_end,
    next_at, row_cells, trim_end, is_white_space, Assembly, Elem, SectionModel, Step,
    array_items, decimal_text, dict_items, digits_value, entry_at, find_from,
    is_digit, is_key_char, lemma_find_from, lemma_ws_end, strip_leading_zeros, strip_trailing_zeros, value_at, value_start, ws_end, Scan,
};
use crate::parser::lemma_digits_nonneg;
use crate::rescan::{all_digits, canonical_float, plain_key, rescannable};
use crate::render::{document_text, quoted_text, text_of};
use crate::round_trip::{
    lemma_document_text_rescans, plain_cell_text, plain_cells, plain_document, plain_entries,
    plain_name, plain_section,
};
use crate::sorted_map::{keys_sorted, lemma_insert_sorted, lemma_lower_bound_range, lower_bound, map_insert};
use crate::text::{lemma_run_end, run_end};
use crate::value::Node;

verus! {

/// Digits as a float's whole part is written: no leading zero but a lone one.
pub open spec fn canonical_whole(w: Seq<char>) -> bool {
    w.len() > 0 && all_digits(w) && (w.len() == 1 || w[0] != '0')
}

/// The values that reading produces: as `rescannable`, but a float may
/// also be a whole number written without a point.
pub open spec fn readable(n: Node) -> bool
    decreases n,
{
    match n {
        Node::Str(t) => forall|i: int| 0 <= i < t.len() ==> #[trigger] t[i] != '"',
        Node::Int(i) => 0 <= i <= i64::MAX,
        Node::Float(t) => canonical_float(t) || canonical_whole(t),
        Node::Bool(_) => true,
        Node::Array(items) => forall|i: int| 0 <= i < items.len() ==> readable(#[trigger] items[i]),
        Node::Dict(d) => keys_sorted(d) && forall|i: int|
            0 <= i < d.len() ==> plain_key(#[trigger] d[i].0) && readable(d[i].1),
    }
}

/// Entries with plain keys and readable values.
pub open spec fn readable_entries(d: Seq<(Seq<char>, Node)>) -> bool {
    forall|i: int| 0 <= i < d.len() ==> plain_key(#[trigger] d[i].0) && readable(d[i].1)
}

proof fn lemma_strip_leading(w: Seq<char>)
    requires
        w.len() > 0,
        all_digits(w),
    ensures
        canonical_whole(strip_leading_zeros(w)),
    decreases w.len(),
{
    if w.len() > 1 && w[0] == '0' {
        assert(all_digits(w.drop_first())) by {
            assert forall|i: int| 0 <= i < w.drop_first().len() implies is_digit(#[trigger] w.drop_first()[i]) by {
                assert(w.drop_first()[i] == w[i + 1]);
            }
        }
        lemma_strip_leading(w.drop_first());
    }
}

proof fn lemma_strip_trailing(f: Seq<char>)
    requires
        all_digits(f),
    ensures
        all_digits(strip_trailing_zeros(f)),
        strip_trailing_zeros(f).len() > 0 ==> strip_trailing_zeros(f).last() != '0',
    decreases f.len(),
{
    if f.len() > 0 && f.last() == '0' {
        assert(all_digits(f.drop_last())) by {
            assert forall|i: int| 0 <= i < f.drop_last().len() implies is_digit(#[trigger] f.drop_last()[i]) by {
                assert(f.drop_last()[i] == f[i]);
            }
        }
        lemma_strip_trailing(f.drop_last());
    }
}

proof fn lemma_decimal_readable(w: Seq<char>, f: Seq<char>)
    requires
        w.len() > 0,
        all_digits(w),
        all_digits(f),
    ensures
        canonical_float(decimal_text(w, f)) || canonical_whole(decimal_text(w, f)),
{
    lemma_strip_leading(w);
    lemma_strip_trailing(f);
    let w2 = strip_leading_zeros(w);
    let f2 = strip_trailing_zeros(f);
    if f2.len() > 0 {
        let t = w2 + seq!['.'] + f2;
        assert forall|i: int| 0 <= i < w2.len() implies #[trigger] t[i] != '.' by {
            assert(t[i] == w2[i]);
            assert(is_digit(w2[i]));
        }
        assert(t[w2.len() as int] == '.');
        crate::grammar::lemma_find_from_unique(t, 0, w2.len() as int, '.');
        assert(t.subrange(0, w2.len() as int) =~= w2);
        assert(t.subrange(w2.len() as int + 1, t.len() as int) =~= f2);
        assert(t.last() == f2.last());
    }
}

proof fn lemma_run_digits(s: Seq<char>, p: int)
    requires
        0 <= p <= s.len(),
    ensures
        all_digits(s.subrange(p, run_end(s, p, |c: char| is_digit(c)))),
        p <= run_end(s, p, |c: char| is_digit(c)) <= s.len(),
{
    lemma_run_end(s, p, |c: char| is_digit(c));
    let e = run_end(s, p, |c: char| is_digit(c));
    assert forall|i: int| 0 <= i < e - p implies is_digit(#[trigger] s.subrange(p, e)[i]) by {
        assert(s.subrange(p, e)[i] == s[p + i]);
    }
}

/// A value that reading produces is readable.
pub proof fn lemma_value_readable(s: Seq<char>, p: int)
    ensures
        value_at(s, p) matches Scan::Done(n, _) ==> readable(n),
    decreases s.len() - p, 0int,
{
    let q = value_start(s, p);
    if 0 <= p <= q < s.len() {
        if s[q] == '"' {
            if q + 1 < s.len() {
                lemma_find_from(s, q + 1, '"');
                let e = find_from(s, q + 1, '"');
                let t = s.subrange(q + 1, e);
                assert forall|i: int| 0 <= i < t.len() implies #[trigger] t[i] != '"' by {
                    assert(t[i] == s[q + 1 + i]);
                }
            }
        } else if s[q] == '[' {
            lemma_array_readable(s, q + 1, Seq::empty());
        } else if s[q] == '{' {
            lemma_dict_readable(s, q + 1, Seq::empty());
        } else if is_digit(s[q]) {
            lemma_run_digits(s, q);
            let d1 = run_end(s, q, |c: char| is_digit(c));
            if d1 < s.len() && s[d1] == '.' {
                lemma_run_digits(s, d1 + 1);
                let d2 = run_end(s, d1 + 1, |c: char| is_digit(c));
                if d2 != d1 + 1 {
                    lemma_run_end(s, q, |c: char| is_digit(c));
                    lemma_decimal_readable(s.subrange(q, d1), s.subrange(d1 + 1, d2));
                }
            } else {
                lemma_digits_nonneg(s.subrange(q, d1));
            }
        }
    }
}

/// The rest of an array, after readable items, reads as a readable array.
proof fn lemma_array_readable(s: Seq<char>, r: int, acc: Seq<Node>)
    ensures
        (forall|i: int| 0 <= i < acc.len() ==> readable(#[trigger] acc[i])) ==> (array_items(s, r, acc) matches Scan::Done(n, _) ==> readable(n)),
    decreases s.len() - r, 1int,
{
    let r1 = ws_end(s, r);
    if 0 <= r <= r1 < s.len() && s[r1] != ']' {
        if s[r1] == ',' {
            lemma_array_readable(s, r1 + 1, acc);
        } else {
            lemma_value_readable(s, r1);
            match value_at(s, r1) {
                Scan::Done(v, e) => {
                    if r1 < e <= s.len() {
                        lemma_array_readable(s, e, acc.push(v));
                        if forall|i: int| 0 <= i < acc.len() ==> readable(#[trigger] acc[i]) {
                            assert forall|i: int| 0 <= i < acc.push(v).len() implies readable(#[trigger] acc.push(v)[i]) by {
                                if i < acc.len() {
                                    assert(acc.push(v)[i] == acc[i]);
                                }
                            }
                        }
                    }
                },
                _ => {},
            }
        }
    }
}

/// Binding a plain key to a readable value keeps a dictionary readable.
proof fn lemma_insert_readable(d: Seq<(Seq<char>, Node)>, k: Seq<char>, v: Node)
    requires
        keys_sorted(d),
        readable_entries(d),
        plain_key(k),
        readable(v),
    ensures
        keys_sorted(map_insert(d, k, v)),
        readable_entries(map_insert(d, k, v)),
{
    lemma_insert_sorted(d, k, v);
    lemma_lower_bound_range(d, k, 0);
    let m = map_insert(d, k, v);
    let j = lower_bound(d, k, 0);
    assert forall|i: int| 0 <= i < m.len() implies plain_key(#[trigger] m[i].0) && readable(m[i].1) by {
        if j < d.len() && d[j].0 == k {
            if i != j {
                assert(m[i] == d[i]);
                assert(plain_key(d[i].0));
                assert(readable(d[i].1));
            }
        } else {
            if i < j {
                assert(m[i] == d[i]);
                assert(0 <= i < d.len());
                assert(plain_key(d[i].0));
                assert(readable(d[i].1));
            } else if i > j {
                assert(m[i] == d[i - 1]);
                assert(plain_key(d[i - 1].0));
                assert(readable(d[i - 1].1));
            }
        }
    }
}

/// The rest of a dictionary, after readable entries, reads as a readable dictionary.
proof fn lemma_dict_readable(s: Seq<char>, r: int, acc: Seq<(Seq<char>, Node)>)
    ensures
        keys_sorted(acc) && readable_entries(acc) ==> (dict_items(s, r, acc) matches Scan::Done(n, _) ==> readable(n)),
    decreases s.len() - r, 2int,
{
    let r1 = ws_end(s, r);
    if 0 <= r <= r1 < s.len() && s[r1] != '}' {
        if s[r1] == ',' || s[r1] == '\n' {
            lemma_dict_readable(s, r1 + 1, acc);
        } else {
            lemma_entry_readable(s, r1);
            match entry_at(s, r1) {
                Scan::Done(kv, e) => {
                    if r1 < e <= s.len() {
                        lemma_dict_readable(s, e, map_insert(acc, kv.0, kv.1));
                        if keys_sorted(acc) && readable_entries(acc) {
                            lemma_insert_readable(acc, kv.0, kv.1);
                        }
                    }
                },
                _ => {},
            }
        }
    }
}

/// An entry that reading produces has a plain key and a readable value.
proof fn lemma_entry_readable(s: Seq<char>, p: int)
    ensures
        entry_at(s, p) matches Scan::Done(kv, _) ==> plain_key(kv.0) && readable(kv.1),
    decreases s.len() - p, 1int,
{
    let k = run_end(s, p, |c: char| is_key_char(c));
    let a = ws_end(s, k);
    if 0 <= p < k <= a < s.len() && s[a] == '=' {
        lemma_ws_end(s, a + 1);
        lemma_value_readable(s, ws_end(s, a + 1));
        lemma_run_end(s, p, |c: char| is_key_char(c));
        let key = s.subrange(p, k);
        assert forall|i: int| 0 <= i < key.len() implies is_key_char(#[trigger] key[i]) by {
            assert(key[i] == s[p + i]);
        }
    }
}

/// `trim_end(t)` is `t` up to some point, and ends in no white space.
proof fn lemma_trim_end(t: Seq<char>)
    ensures
        trim_end(t).len() <= t.len(),
        trim_end(t) == t.subrange(0, trim_end(t).len() as int),
        trim_end(t).len() > 0 ==> !is_white_space(trim_end(t).last()),
    decreases t.len(),
{
    if t.len() > 0 && is_white_space(t.last()) {
        lemma_trim_end(t.drop_last());
        assert(t.drop_last().subrange(0, trim_end(t).len() as int) =~= t.subrange(0, trim_end(t).len() as int));
    } else {
        assert(t.subrange(0, t.len() as int) =~= t);
    }
}

/// The cells of a row that reading produces are plain.
proof fn lemma_row_cells_plain(s: Seq<char>, r: int, acc: Seq<Node>)
    ensures
        plain_cells(acc) ==> plain_cells(row_cells(s, r, acc).0),
    decreases s.len() - r,
{
    let r1 = ws_end(s, r);
    if 0 <= r <= r1 < s.len() && s[r1] != '#' && newline_end(s, r1) == r1 {
        lemma_ws_end(s, r);
        crate::grammar::lemma_find_from(s, r1, '|');
        let f = find_from(s, r1, '|');
        let raw = s.subrange(r1, f);
        let t = trim_end(raw);
        lemma_trim_end(raw);
        lemma_row_cells_plain(s, line_end_of(s, r1, '|'), acc.push(Node::Str(t)));
        if plain_cells(acc) {
            assert(plain_cell_text(t)) by {
                assert forall|i: int| 0 <= i < t.len() implies #[trigger] t[i] != '|' by {
                    assert(t[i] == raw[i]);
                    assert(raw[i] == s[r1 + i]);
                }
                if t.len() > 0 {
                    assert(t[0] == s[r1]);
                }
                if t.len() > 1 {
                    assert(t[1] == s[r1 + 1]);
                }
            }
            assert forall|i: int| 0 <= i < acc.push(Node::Str(t)).len() implies (#[trigger] acc.push(Node::Str(t))[i] matches Node::Str(x) && plain_cell_text(x)) by {
                if i < acc.len() {
                    assert(acc.push(Node::Str(t))[i] == acc[i]);
                }
            }
        }
    }
}

/// What an element that reading produces holds, in written form.
pub open spec fn elem_readable(e: Elem) -> bool {
    match e {
        Elem::Section(n) => plain_name(n),
        Elem::Row(c) => plain_cells(c),
        Elem::Entry(k, v) => plain_key(k) && readable(v),
        Elem::Comment(_) => true,
    }
}

/// The elements that reading produces are readable.
proof fn lemma_next_readable(s: Seq<char>, p: int, accepting: bool)
    ensures
        next_at(s, p, None, accepting) matches Step::Emit(e, _, _) ==> elem_readable(e),
    decreases s.len() - p,
{
    let pw = ws_end(s, p);
    if 0 <= p <= pw <= s.len() {
        if newline_end(s, pw) > pw {
            lemma_next_readable(s, newline_end(s, pw), accepting);
        } else if pw < s.len() {
            if s[pw] == '[' {
                lemma_ws_end(s, pw + 1);
                let q = ws_end(s, pw + 1);
                if q <= s.len() {
                    crate::grammar::lemma_find_from(s, q, ']');
                    let name = s.subrange(q, find_from(s, q, ']'));
                    assert forall|i: int| 0 <= i < name.len() implies #[trigger] name[i] != ']' by {
                        assert(name[i] == s[q + i]);
                    }
                    if name.len() > 0 {
                        assert(name[0] == s[q]);
                    }
                }
            } else if accepting {
                if s[pw] == '|' {
                    lemma_row_cells_plain(s, pw + 1, Seq::empty());
                } else if s[pw] != '#' {
                    lemma_entry_readable(s, pw);
                }
            } else {
                crate::grammar::lemma_find_from(s, pw, '\n');
                if pw < line_end(s, pw) <= s.len() {
                    lemma_next_readable(s, line_end(s, pw), false);
                }
            }
        }
    }
}

/// A section as reading produces it.
pub open spec fn readable_section(sm: SectionModel) -> bool {
    &&& keys_sorted(sm.dict)
    &&& readable_entries(sm.dict)
    &&& forall|i: int| 0 <= i < sm.rows.len() ==> plain_cells(#[trigger] sm.rows[i])
}

/// Sections as reading produces them.
pub open spec fn readable_sections(d: Seq<(Seq<char>, SectionModel)>) -> bool {
    &&& keys_sorted(d)
    &&& forall|i: int| 0 <= i < d.len() ==> plain_name(#[trigger] d[i].0) && readable_section(d[i].1)
}

pub open spec fn assembly_readable(a: Assembly) -> bool {
    &&& readable_sections(a.done)
    &&& readable_section(a.current)
    &&& a.name matches Some(n) ==> plain_name(n)
}

proof fn lemma_insert_section(d: Seq<(Seq<char>, SectionModel)>, k: Seq<char>, v: SectionModel)
    requires
        readable_sections(d),
        plain_name(k),
        readable_section(v),
    ensures
        readable_sections(map_insert(d, k, v)),
        map_insert(d, k, v).len() > 0,
{
    lemma_insert_sorted(d, k, v);
    lemma_lower_bound_range(d, k, 0);
    let m = map_insert(d, k, v);
    let j = lower_bound(d, k, 0);
    assert forall|i: int| 0 <= i < m.len() implies plain_name(#[trigger] m[i].0) && readable_section(m[i].1) by {
        if j < d.len() && d[j].0 == k {
            if i != j {
                assert(m[i] == d[i]);
                assert(plain_name(d[i].0));
                assert(readable_section(d[i].1));
            }
        } else {
            if i < j {
                assert(m[i] == d[i]);
                assert(plain_name(d[i].0));
                assert(readable_section(d[i].1));
            } else if i > j {
                assert(m[i] == d[i - 1]);
                assert(plain_name(d[i - 1].0));
                assert(readable_section(d[i - 1].1));
            }
        }
    }
}

proof fn lemma_close_readable(a: Assembly, at_end: bool)
    requires
        assembly_readable(a),
    ensures
        readable_sections(close_current(a, true, at_end)),
        at_end ==> close_current(a, true, at_end).len() > 0,
{
    reveal_strlit("root");
    match a.name {
        Some(n) => lemma_insert_section(a.done, n, a.current),
        None => {
            assert(plain_name("root"@));
            if at_end || a.current.dict.len() > 0 || a.current.rows.len() > 0 {
                lemma_insert_section(a.done, "root"@, a.current);
            }
        },
    }
}

/// The document that reading produces holds sections in written form.
proof fn lemma_assemble_readable(s: Seq<char>, p: int, a: Assembly)
    requires
        assembly_readable(a),
    ensures
        assemble(s, p, None, true, a) matches Ok(d) ==> readable_sections(d) && d.len() > 0,
    decreases s.len() - p,
{
    lemma_next_readable(s, p, true);
    match next_at(s, p, None, true) {
        Step::End => {
            lemma_close_readable(a, true);
        },
        Step::Emit(e, pn, f2) => {
            if p < pn <= s.len() {
                let b = apply(a, e, true);
                match e {
                    Elem::Section(n) => {
                        lemma_close_readable(a, false);
                        assert(b.current.dict =~= Seq::<(Seq<char>, Node)>::empty());
                    },
                    Elem::Row(c) => {
                        assert forall|i: int| 0 <= i < b.current.rows.len() implies plain_cells(#[trigger] b.current.rows[i]) by {
                            if i < a.current.rows.len() {
                                assert(b.current.rows[i] == a.current.rows[i]);
                            }
                        }
                    },
                    Elem::Entry(k, v) => {
                        lemma_insert_readable(a.current.dict, k, v);
                    },
                    Elem::Comment(_) => {},
                }
                assert(f2 is None) by {
                    lemma_next_filter(s, p, true);
                }
                lemma_assemble_readable(s, pn, b);
            }
        },
        Step::Fail(_) => {},
    }
}

/// Without a filter, the next element leaves the filter off.
proof fn lemma_next_filter(s: Seq<char>, p: int, accepting: bool)
    ensures
        next_at(s, p, None, accepting) matches Step::Emit(_, _, f) ==> f is None,
    decreases s.len() - p,
{
    let pw = ws_end(s, p);
    if 0 <= p <= pw <= s.len() {
        if newline_end(s, pw) > pw {
            lemma_next_filter(s, newline_end(s, pw), accepting);
        } else if pw < s.len() && s[pw] != '[' && !accepting {
            if pw < line_end(s, pw) <= s.len() {
                lemma_next_filter(s, line_end(s, pw), false);
            }
        }
    }
}

/// A float written without a point that fits in an `i64`, or any other text.
pub open spec fn whole_fits(t: Seq<char>) -> bool {
    canonical_whole(t) ==> digits_value(t) <= i64::MAX
}

/// Whether every float written without a point fits in an `i64`.
pub open spec fn floats_fit(n: Node) -> bool
    decreases n,
{
    match n {
        Node::Float(t) => whole_fits(t),
        Node::Array(items) => forall|i: int| 0 <= i < items.len() ==> floats_fit(#[trigger] items[i]),
        Node::Dict(d) => forall|i: int| 0 <= i < d.len() ==> floats_fit(#[trigger] d[i].1),
        _ => true,
    }
}

/// The value as its text reads back: a float without a point becomes the
/// integer it writes.
pub open spec fn norm(n: Node) -> Node
    decreases n,
{
    match n {
        Node::Float(t) => if canonical_whole(t) {
            Node::Int(digits_value(t))
        } else {
            Node::Float(t)
        },
        Node::Array(items) => Node::Array(norm_items(items)),
        Node::Dict(d) => Node::Dict(norm_entries(d)),
        _ => n,
    }
}

pub open spec fn norm_items(items: Seq<Node>) -> Seq<Node>
    decreases items,
{
    if items.len() == 0 {
        Seq::empty()
    } else {
        norm_items(items.drop_last()).push(norm(items.last()))
    }
}

pub open spec fn norm_entries(d: Seq<(Seq<char>, Node)>) -> Seq<(Seq<char>, Node)>
    decreases d,
{
    if d.len() == 0 {
        Seq::empty()
    } else {
        norm_entries(d.drop_last()).push((d.last().0, norm(d.last().1)))
    }
}

proof fn lemma_norm_items(items: Seq<Node>)
    ensures
        norm_items(items).len() == items.len(),
        forall|i: int| 0 <= i < items.len() ==> #[trigger] norm_items(items)[i] == norm(items[i]),
    decreases items.len(),
{
    if items.len() > 0 {
        lemma_norm_items(items.drop_last());
    }
}

proof fn lemma_norm_entries(d: Seq<(Seq<char>, Node)>)
    ensures
        norm_entries(d).len() == d.len(),
        forall|i: int| 0 <= i < d.len() ==> #[trigger] norm_entries(d)[i] == (d[i].0, norm(d[i].1)),
    decreases d.len(),
{
    if d.len() > 0 {
        lemma_norm_entries(d.drop_last());
    }
}

proof fn lemma_value_at_least_one(t: Seq<char>)
    requires
        t.len() > 0,
        all_digits(t),
        t[0] != '0',
    ensures
        digits_value(t) >= 1,
    decreases t.len(),
{
    if t.len() > 1 {
        assert(t.drop_last()[0] == t[0]);
        assert(all_digits(t.drop_last())) by {
            assert forall|i: int| 0 <= i < t.drop_last().len() implies is_digit(#[trigger] t.drop_last()[i]) by {
                assert(t.drop_last()[i] == t[i]);
            }
        }
        lemma_value_at_least_one(t.drop_last());
        assert(is_digit(t.last()));
        assert(digits_value(t) == digits_value(t.drop_last()) * 10 + (t.last() as int - '0' as int));
    } else {
        assert(t.drop_last() =~= Seq::<char>::empty());
        assert(digits_value(t.drop_last()) == 0);
        assert(is_digit(t[0]));
        assert(t.last() == t[0]);
    }
}

/// Canonical digits are the decimal text of their value.
proof fn lemma_whole_text(t: Seq<char>)
    requires
        canonical_whole(t),
    ensures
        crate::render::nat_text(digits_value(t) as nat) == t,
        digits_value(t) >= 0,
    decreases t.len(),
{
    lemma_digits_nonneg(t);
    let c = t.last();
    assert(is_digit(c));
    let d = c as int - '0' as int;
    assert(0 <= d < 10);
    assert(crate::render::digit(d) == c);
    if t.len() == 1 {
        assert(t.drop_last() =~= Seq::<char>::empty());
        assert(digits_value(t.drop_last()) == 0);
        assert(digits_value(t) == d);
        assert(crate::render::nat_text(d as nat) =~= t);
    } else {
        let w = t.drop_last();
        assert(w[0] == t[0]);
        assert(all_digits(w)) by {
            assert forall|i: int| 0 <= i < w.len() implies is_digit(#[trigger] w[i]) by {
                assert(w[i] == t[i]);
            }
        }
        lemma_whole_text(w);
        lemma_value_at_least_one(w);
        let v = digits_value(t);
        let v1 = digits_value(w);
        assert(v == v1 * 10 + d);
        assert(v / 10 == v1 && v % 10 == d) by (nonlinear_arith)
            requires
                v == v1 * 10 + d,
                0 <= d < 10,
                v1 >= 1,
        ;
        assert(v >= 10);
        assert(crate::render::nat_text(v as nat) == crate::render::nat_text((v / 10) as nat).push(crate::render::digit(v % 10)));
        assert(crate::render::nat_text(v as nat) =~= t);
    }
}

/// Reading a value's text back changes none of it.
proof fn lemma_norm_text(n: Node)
    requires
        readable(n),
        floats_fit(n),
    ensures
        quoted_text(norm(n)) == quoted_text(n),
        text_of(norm(n)) == text_of(n),
        rescannable(norm(n)),
    decreases n, 1int,
{
    reveal_with_fuel(rescannable, 2);
    match n {
        Node::Float(t) => {
            if canonical_whole(t) {
                lemma_whole_text(t);
            }
        },
        Node::Array(items) => {
            assert(forall|i: int| 0 <= i < items.len() ==> readable(#[trigger] items[i]));
            assert(forall|i: int| 0 <= i < items.len() ==> floats_fit(#[trigger] items[i]));
            lemma_norm_items_text(items);
            lemma_norm_items(items);
            assert forall|i: int| 0 <= i < norm_items(items).len() implies rescannable(#[trigger] norm_items(items)[i]) by {
                lemma_norm_text(items[i]);
            }
            assert(rescannable(norm(n)) == (forall|i: int| 0 <= i < norm_items(items).len() ==> rescannable(#[trigger] norm_items(items)[i])));
        },
        Node::Dict(d) => {
            assert(keys_sorted(d));
            assert(readable_entries(d));
            assert(forall|i: int| 0 <= i < d.len() ==> floats_fit(#[trigger] d[i].1));
            lemma_norm_entries_text(d);
            lemma_norm_entries(d);
            let m = norm_entries(d);
            assert forall|i: int| 0 <= i < m.len() implies plain_key(#[trigger] m[i].0) && rescannable(m[i].1) by {
                assert(plain_key(d[i].0));
                assert(readable(d[i].1));
                lemma_norm_text(d[i].1);
            }
            assert(keys_sorted(m)) by {
                assert forall|a: int, b: int| 0 <= a < b < m.len() implies #[trigger] crate::text::key_lt(m[a].0, m[b].0) by {
                    assert(crate::text::key_lt(d[a].0, d[b].0));
                }
            }
            assert(rescannable(norm(n)) == (keys_sorted(m) && (forall|i: int| 0 <= i < m.len() ==> plain_key(#[trigger] m[i].0) && rescannable(m[i].1))));
        },
        _ => {},
    }
}

proof fn lemma_norm_items_text(items: Seq<Node>)
    requires
        forall|i: int| 0 <= i < items.len() ==> readable(#[trigger] items[i]),
        forall|i: int| 0 <= i < items.len() ==> floats_fit(#[trigger] items[i]),
    ensures
        crate::render::items_text(norm_items(items)) == crate::render::items_text(items),
    decreases items, 0int,
{
    if items.len() > 0 {
        let w = items.drop_last();
        assert forall|i: int| 0 <= i < w.len() implies readable(#[trigger] w[i]) && floats_fit(w[i]) by {
            assert(w[i] == items[i]);
        }
        lemma_norm_items_text(w);
        assert(readable(items.last()) && floats_fit(items.last()));
        lemma_norm_text(items.last());
        let m = norm_items(items);
        assert(m.drop_last() =~= norm_items(w));
        assert(m.last() == norm(items.last()));
        if items.len() == 1 {
            assert(w =~= Seq::<Node>::empty());
            assert(m.drop_last() =~= Seq::<Node>::empty());
        }
    }
}

proof fn lemma_norm_entries_text(d: Seq<(Seq<char>, Node)>)
    requires
        readable_entries(d),
        forall|i: int| 0 <= i < d.len() ==> floats_fit(#[trigger] d[i].1),
    ensures
        crate::render::entries_text(norm_entries(d)) == crate::render::entries_text(d),
        crate::render::entry_lines(norm_entries(d)) == crate::render::entry_lines(d),
    decreases d, 0int,
{
    if d.len() > 0 {
        let w = d.drop_last();
        assert forall|i: int| 0 <= i < w.len() implies plain_key(#[trigger] w[i].0) && readable(w[i].1) by {
            assert(w[i] == d[i]);
            assert(plain_key(d[i].0));
            assert(readable(d[i].1));
        }
        assert forall|i: int| 0 <= i < w.len() implies floats_fit(#[trigger] w[i].1) by {
            assert(w[i] == d[i]);
        }
        lemma_norm_entries_text(w);
        assert(plain_key(d.last().0));
        assert(readable(d.last().1));
        assert(floats_fit(d.last().1));
        assert(decreases_to!(d => d[d.len() - 1]));
        lemma_norm_text(d.last().1);
        let m = norm_entries(d);
        assert(m.drop_last() =~= norm_entries(w));
        assert(m.last() == (d.last().0, norm(d.last().1)));
        if d.len() == 1 {
            assert(w =~= Seq::<(Seq<char>, Node)>::empty());
            assert(m.drop_last() =~= Seq::<(Seq<char>, Node)>::empty());
        }
    }
}

/// Every float without a point in the document's entries fits in an `i64`.
pub open spec fn document_floats_fit(d: Seq<(Seq<char>, SectionModel)>) -> bool {
    forall|i: int, j: int| 0 <= i < d.len() && 0 <= j < d[i].1.dict.len() ==> floats_fit(#[trigger] d[i].1.dict[j].1)
}

/// The document as its text reads back.
pub open spec fn norm_document(d: Seq<(Seq<char>, SectionModel)>) -> Seq<(Seq<char>, SectionModel)>
    decreases d.len(),
{
    if d.len() == 0 {
        Seq::empty()
    } else {
        norm_document(d.drop_last()).push(
            (d.last().0, SectionModel { dict: norm_entries(d.last().1.dict), ..d.last().1 }),
        )
    }
}

proof fn lemma_norm_document(d: Seq<(Seq<char>, SectionModel)>)
    requires
        readable_sections(d),
        document_floats_fit(d),
    ensures
        document_text(norm_document(d)) == document_text(d),
        norm_document(d).len() == d.len(),
        forall|i: int| 0 <= i < d.len() ==> #[trigger] norm_document(d)[i] == (d[i].0, SectionModel { dict: norm_entries(d[i].1.dict), ..d[i].1 }),
    decreases d.len(),
{
    if d.len() > 0 {
        let w = d.drop_last();
        assert(readable_sections(w)) by {
            assert forall|i: int| 0 <= i < w.len() implies plain_name(#[trigger] w[i].0) && readable_section(w[i].1) by {
                assert(w[i] == d[i]);
                assert(plain_name(d[i].0));
                assert(readable_section(d[i].1));
            }
        }
        assert(document_floats_fit(w)) by {
            assert forall|i: int, j: int| 0 <= i < w.len() && 0 <= j < w[i].1.dict.len() implies floats_fit(#[trigger] w[i].1.dict[j].1) by {
                assert(w[i] == d[i]);
            }
        }
        lemma_norm_document(w);
        let last = d.last();
        assert(last == d[d.len() - 1]);
        assert(plain_name(d[d.len() - 1].0));
        assert(readable_section(d[d.len() - 1].1));
        assert(readable_section(last.1));
        assert forall|j: int| 0 <= j < last.1.dict.len() implies floats_fit(#[trigger] last.1.dict[j].1) by {
            assert(floats_fit(d[d.len() - 1].1.dict[j].1));
        }
        lemma_norm_entries_text(last.1.dict);
        let m = norm_document(d);
        assert(m.drop_last() =~= norm_document(w));
    }
}

/// Rendering is a fixed point from the first reading on: the text of what
/// a text reads as reads back as a document with that same text. The one
/// condition is that every float written without a fraction (`4.0`, which
/// is written `4` and then reads as an integer) fits in an `i64`.
pub proof fn lemma_render_read_fixed_point(t: Seq<char>)
    requires
        document(t, None) matches Ok(d) && document_floats_fit(d),
    ensures
        document(t, None) matches Ok(d) && document(document_text(d), None) matches Ok(d2)
            && document_text(d2) == document_text(d),
{
    let d = document(t, None)->Ok_0;
    reveal_strlit("root");
    assert(assembly_readable(initial_assembly())) by {
        assert(initial_assembly().current.dict =~= Seq::<(Seq<char>, Node)>::empty());
    }
    lemma_assemble_readable(t, 0, initial_assembly());
    lemma_norm_document(d);
    let n = norm_document(d);
    assert(plain_document(n)) by {
        assert(keys_sorted(n)) by {
            assert forall|a: int, b: int| 0 <= a < b < n.len() implies #[trigger] crate::text::key_lt(n[a].0, n[b].0) by {
                assert(crate::text::key_lt(d[a].0, d[b].0));
            }
        }
        assert forall|i: int| 0 <= i < n.len() implies plain_name(#[trigger] n[i].0) && plain_section(n[i].1) by {
            assert(plain_name(d[i].0));
            assert(readable_section(d[i].1));
            let sm = d[i].1;
            let m = norm_entries(sm.dict);
            lemma_norm_entries(sm.dict);
            assert forall|j: int| 0 <= j < m.len() implies plain_key(#[trigger] m[j].0) && rescannable(m[j].1) by {
                assert(plain_key(sm.dict[j].0));
                assert(readable(sm.dict[j].1));
                assert(floats_fit(d[i].1.dict[j].1));
                lemma_norm_text(sm.dict[j].1);
            }
            assert(keys_sorted(m)) by {
                assert forall|a: int, b: int| 0 <= a < b < m.len() implies #[trigger] crate::text::key_lt(m[a].0, m[b].0) by {
                    assert(crate::text::key_lt(sm.dict[a].0, sm.dict[b].0));
                }
            }
            assert(plain_entries(m));
        }
    }
    lemma_document_text_rescans(n);
}

} // verus!
