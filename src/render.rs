//! The canonical text form of values, sections and documents.

use vstd::prelude::*;
use vstd::string::StringExecFns;
use crate::grammar::SectionModel;
use crate::ion::Ion;
use crate::section::Section;
use crate::sorted_map::{lemma_map_vals, map_vals};
use crate::text::push_char;
use crate::value::{lemma_dict_nodes, nodes_of, rows_nodes, Node, Value};

verus! {

broadcast use vstd::std_specs::vec::axiom_vec_index_decreases;

/// The decimal digit `d`.
pub open spec fn digit(d: int) -> char {
    if d == 0 {
        '0'
    } else if d == 1 {
        '1'
    } else if d == 2 {
        '2'
    } else if d == 3 {
        '3'
    } else if d == 4 {
        '4'
    } else if d == 5 {
        '5'
    } else if d == 6 {
        '6'
    } else if d == 7 {
        '7'
    } else if d == 8 {
        '8'
    } else {
        '9'
    }
}

/// The decimal text of `n`, without leading zeros.
pub open spec fn nat_text(n: nat) -> Seq<char>
    decreases n,
{
    if n < 10 {
        seq![digit(n as int)]
    } else {
        nat_text(n / 10).push(digit((n % 10) as int))
    }
}

/// The decimal text of `i`, with `-` when it is negative.
pub open spec fn int_text(i: int) -> Seq<char> {
    if i < 0 {
        seq!['-'] + nat_text((-i) as nat)
    } else {
        nat_text(i as nat)
    }
}

pub open spec fn quote(t: Seq<char>) -> Seq<char> {
    seq!['"'] + t + seq!['"']
}

/// The text of a value: a string bare, a number or boolean in its usual
/// form, an array as `[ a, b ]` and a dictionary as `{ k = v, ... }`, whose
/// string members are quoted.
pub open spec fn text_of(n: Node) -> Seq<char>
    decreases n,
{
    match n {
        Node::Str(t) => t,
        Node::Int(i) => int_text(i),
        Node::Float(t) => t,
        Node::Bool(b) => if b {
            "true"@
        } else {
            "false"@
        },
        Node::Array(items) => "[ "@ + items_text(items) + " ]"@,
        Node::Dict(d) => "{ "@ + entries_text(d) + " }"@,
    }
}

/// The members of an array, separated by `, `.
pub open spec fn items_text(items: Seq<Node>) -> Seq<char>
    decreases items,
{
    if items.len() == 0 {
        Seq::empty()
    } else {
        let last = match items.last() {
            Node::Str(t) => quote(t),
            _ => text_of(items.last()),
        };
        if items.len() == 1 {
            last
        } else {
            items_text(items.drop_last()) + ", "@ + last
        }
    }
}

/// The entries of a dictionary as `k = v`, separated by `, `.
pub open spec fn entries_text(d: Seq<(Seq<char>, Node)>) -> Seq<char>
    decreases d,
{
    if d.len() == 0 {
        Seq::empty()
    } else {
        let last = d.last().0 + " = "@ + match d.last().1 {
            Node::Str(t) => quote(t),
            _ => text_of(d.last().1),
        };
        if d.len() == 1 {
            last
        } else {
            entries_text(d.drop_last()) + ", "@ + last
        }
    }
}

/// The text of a value, quoted when it is a string.
pub open spec fn quoted_text(n: Node) -> Seq<char> {
    match n {
        Node::Str(t) => quote(t),
        _ => text_of(n),
    }
}

/// The lines `key = value` of a section's dictionary.
pub open spec fn entry_lines(d: Seq<(Seq<char>, Node)>) -> Seq<char>
    decreases d.len(),
{
    if d.len() == 0 {
        Seq::empty()
    } else {
        entry_lines(d.drop_last()) + d.last().0 + " = "@ + quoted_text(d.last().1) + "\n"@
    }
}

/// The cells of a row, each as `| cell `.
pub open spec fn cells_text(r: Seq<Node>) -> Seq<char>
    decreases r.len(),
{
    if r.len() == 0 {
        Seq::empty()
    } else {
        cells_text(r.drop_last()) + "| "@ + text_of(r.last()) + " "@
    }
}

/// The lines of a section's rows.
pub open spec fn row_lines(rows: Seq<Seq<Node>>) -> Seq<char>
    decreases rows.len(),
{
    if rows.len() == 0 {
        Seq::empty()
    } else {
        row_lines(rows.drop_last()) + cells_text(rows.last()) + "|\n"@
    }
}

/// A section's body: its entries in key order, then its rows.
pub open spec fn section_text(s: SectionModel) -> Seq<char> {
    entry_lines(s.dict) + row_lines(s.rows)
}

/// A document: each section as `[name]`, its body and a blank line.
pub open spec fn document_text(d: Seq<(Seq<char>, SectionModel)>) -> Seq<char>
    decreases d.len(),
{
    if d.len() == 0 {
        Seq::empty()
    } else {
        document_text(d.drop_last()) + "["@ + d.last().0 + "]\n"@ + section_text(d.last().1) + "\n"@
    }
}

/// Appends the decimal text of `v`.
fn write_int(out: &mut String, v: i64)
    ensures
        final(out)@ == old(out)@ + int_text(v as int),
{
    if v < 0 {
        push_char(out, '-');
    }
    let mut m: u64 = if v < 0 {
        let a: i64 = -(v + 1);
        a as u64 + 1
    } else {
        v as u64
    };
    let ghost n = m as nat;
    let mut rev: Vec<char> = Vec::new();
    while m >= 10
        invariant
            nat_text(n) == nat_text(m as nat) + rev@.reverse(),
        decreases m,
    {
        let d = m % 10;
        proof {
            assert(rev@.push(digit(d as int)).reverse() =~= seq![digit(d as int)] + rev@.reverse());
            assert(nat_text(m as nat) == nat_text((m / 10) as nat).push(digit((m % 10) as int)));
            assert(nat_text((m / 10) as nat).push(digit(d as int)) + rev@.reverse() =~= nat_text(
                (m / 10) as nat,
            ) + (seq![digit(d as int)] + rev@.reverse()));
        }
        rev.push(digit_char(d));
        m = m / 10;
    }
    let ghost head = old(out)@ + if v < 0 { seq!['-'] } else { Seq::empty() };
    proof {
        assert(out@ =~= head);
    }
    push_char(out, digit_char(m));
    let mut i = rev.len();
    while i > 0
        invariant
            i <= rev@.len(),
            out@ == head + seq![digit(m as int)] + rev@.subrange(i as int, rev@.len() as int).reverse(),
        decreases i,
    {
        proof {
            assert(rev@.subrange(i - 1, rev@.len() as int).reverse() =~= rev@.subrange(i as int, rev@.len() as int).reverse().push(rev@[i - 1]));
        }
        push_char(out, rev[i - 1]);
        i = i - 1;
    }
    proof {
        assert(rev@.subrange(0, rev@.len() as int) =~= rev@);
        assert(out@ =~= head + nat_text(n));
        if v < 0 {
            assert(old(out)@ + int_text(v as int) =~= head + nat_text(n));
        } else {
            assert(old(out)@ + int_text(v as int) =~= head + nat_text(n));
        }
    }
}

fn digit_char(d: u64) -> (r: char)
    requires
        d < 10,
    ensures
        r == digit(d as int),
{
    if d == 0 {
        '0'
    } else if d == 1 {
        '1'
    } else if d == 2 {
        '2'
    } else if d == 3 {
        '3'
    } else if d == 4 {
        '4'
    } else if d == 5 {
        '5'
    } else if d == 6 {
        '6'
    } else if d == 7 {
        '7'
    } else if d == 8 {
        '8'
    } else {
        '9'
    }
}

/// Appends the text of `v`.
fn write_value(out: &mut String, v: &Value)
    ensures
        final(out)@ == old(out)@ + text_of(v.node()),
    decreases v, 0int,
{
    match v {
        Value::String(t) => out.append(t.as_str()),
        Value::Integer(i) => write_int(out, *i),
        Value::Float(t) => out.append(t.as_str()),
        Value::Boolean(b) => {
            if *b {
                out.append("true");
            } else {
                out.append("false");
            }
        },
        Value::Array(items) => {
            out.append("[ ");
            let ghost head = out@;
            let mut i: usize = 0;
            proof {
                assert(items@.subrange(0, 0) =~= Seq::<Value>::empty());
                assert(head + items_text(nodes_of(Seq::<Value>::empty())) =~= head);
            }
            while i < items.len()
                invariant
                    i <= items@.len(),
                    *v == Value::Array(*items),
                    decreases_to!(v => items),
                    out@ == head + items_text(nodes_of(items@.subrange(0, i as int))),
                decreases items@.len() - i,
            {
                let ghost before = out@;
                if i > 0 {
                    out.append(", ");
                }
                proof {
                    assert(decreases_to!(items => items@[i as int]));
                }
                write_quoted(out, &items[i]);
                proof {
                    let pre = items@.subrange(0, i as int);
                    let nxt = items@.subrange(0, i + 1);
                    assert(nxt.drop_last() =~= pre);
                    assert(nodes_of(nxt) == nodes_of(pre).push(items@[i as int].node()));
                    assert(nodes_of(nxt).drop_last() =~= nodes_of(pre));
                    if i == 0 {
                        assert(pre =~= Seq::<Value>::empty());
                        assert(out@ =~= head + items_text(nodes_of(nxt)));
                    } else {
                        assert(out@ =~= head + items_text(nodes_of(nxt)));
                    }
                }
                i = i + 1;
            }
            proof {
                assert(items@.subrange(0, i as int) =~= items@);
            }
            out.append(" ]");
        },
        Value::Dictionary(d) => {
            out.append("{ ");
            let ghost head = out@;
            proof {
                lemma_dict_nodes(d);
                d.lemma_raw();
            }
            let ghost nodes = map_vals(d.spec_entries(), |x: Value| x.node());
            let mut i: usize = 0;
            proof {
                lemma_map_vals(d.spec_entries(), |x: Value| x.node());
                assert(head + entries_text(nodes.subrange(0, 0)) =~= head);
            }
            while i < d.len()
                invariant
                    i <= nodes.len(),
                    nodes.len() == d.spec_entries().len(),
                    nodes == map_vals(d.spec_entries(), |x: Value| x.node()),
                    forall|j: int| 0 <= j < nodes.len() ==> #[trigger] nodes[j] == (d.spec_entries()[j].0, d.spec_entries()[j].1.node()),
                    decreases_to!(v => d.raw()),
                    d.raw().len() == d.spec_entries().len(),
                    out@ == head + entries_text(nodes.subrange(0, i as int)),
                decreases nodes.len() - i,
            {
                if i > 0 {
                    out.append(", ");
                }
                let (k, x) = d.entry(i);
                out.append(k.as_str());
                out.append(" = ");
                proof {
                    assert(decreases_to!(d.raw() => d.raw()[i as int]));
                    assert(decreases_to!(d.raw()[i as int] => d.raw()[i as int].1));
                }
                write_quoted(out, x);
                proof {
                    let pre = nodes.subrange(0, i as int);
                    let nxt = nodes.subrange(0, i + 1);
                    assert(nxt.drop_last() =~= pre);
                    assert(nxt.last() == (k@, x.node()));
                    if i == 0 {
                        assert(pre =~= Seq::<(Seq<char>, Node)>::empty());
                    }
                    assert(out@ =~= head + entries_text(nxt));
                }
                i = i + 1;
            }
            proof {
                assert(nodes.subrange(0, i as int) =~= nodes);
            }
            out.append(" }");
        },
    }
}

/// Appends the text of `v`, quoted when it is a string.
fn write_quoted(out: &mut String, v: &Value)
    ensures
        final(out)@ == old(out)@ + quoted_text(v.node()),
    decreases v, 1int,
{
    match v {
        Value::String(t) => {
            push_char(out, '"');
            out.append(t.as_str());
            push_char(out, '"');
            proof {
                assert(out@ =~= old(out)@ + quote(t@));
            }
        },
        _ => write_value(out, v),
    }
}

impl Value {
    /// The text of the value (a string is not quoted).
    pub fn to_string(&self) -> (r: String)
        ensures
            r@ == text_of(self.node()),
    {
        let mut out = String::new();
        write_value(&mut out, self);
        proof {
            assert(out@ =~= text_of(self.node()));
        }
        out
    }

    /// The text of the value, quoted when it is a string: how it stands
    /// after `=` in a dictionary entry.
    pub fn to_quoted_string(&self) -> (r: String)
        ensures
            r@ == quoted_text(self.node()),
    {
        let mut out = String::new();
        write_quoted(&mut out, self);
        proof {
            assert(out@ =~= quoted_text(self.node()));
        }
        out
    }
}

/// Appends the body of `s`.
fn write_section(out: &mut String, s: &Section)
    ensures
        final(out)@ == old(out)@ + section_text(s.model()),
{
    let ghost head = out@;
    let ghost dict = s.model().dict;
    let ghost entries = s.dictionary.spec_entries();
    proof {
        lemma_map_vals(entries, |x: Value| x.node());
        assert(head + entry_lines(dict.subrange(0, 0)) =~= head);
    }
    let mut i: usize = 0;
    while i < s.dictionary.len()
        invariant
            i <= dict.len(),
            dict.len() == entries.len(),
            entries == s.dictionary.spec_entries(),
            dict == s.model().dict,
            forall|j: int| 0 <= j < dict.len() ==> #[trigger] dict[j] == (entries[j].0, entries[j].1.node()),
            out@ == head + entry_lines(dict.subrange(0, i as int)),
        decreases dict.len() - i,
    {
        let (k, x) = s.dictionary.entry(i);
        out.append(k.as_str());
        out.append(" = ");
        write_quoted(out, x);
        out.append("\n");
        proof {
            let nxt = dict.subrange(0, i + 1);
            assert(nxt.drop_last() =~= dict.subrange(0, i as int));
            assert(out@ =~= head + entry_lines(nxt));
        }
        i = i + 1;
    }
    proof {
        assert(dict.subrange(0, i as int) =~= dict);
    }
    let ghost mid = out@;
    let ghost rows = s.model().rows;
    let mut r: usize = 0;
    proof {
        assert(mid + row_lines(rows.subrange(0, 0)) =~= mid);
    }
    while r < s.rows.len()
        invariant
            r <= s.rows@.len(),
            rows == rows_nodes(s.rows@),
            out@ == mid + row_lines(rows.subrange(0, r as int)),
        decreases s.rows@.len() - r,
    {
        let row = &s.rows[r];
        let ghost cells = nodes_of(row@);
        let ghost start = out@;
        let mut c: usize = 0;
        proof {
            crate::value::lemma_nodes_of(row@);
            assert(start + cells_text(cells.subrange(0, 0)) =~= start);
        }
        while c < row.len()
            invariant
                c <= row@.len(),
                cells == nodes_of(row@),
                cells.len() == row@.len(),
                forall|j: int| 0 <= j < row@.len() ==> #[trigger] cells[j] == row@[j].node(),
                out@ == start + cells_text(cells.subrange(0, c as int)),
            decreases row@.len() - c,
        {
            out.append("| ");
            write_value(out, &row[c]);
            push_char(out, ' ');
            proof {
                reveal_strlit(" ");
                let nxt = cells.subrange(0, c + 1);
                assert(nxt.drop_last() =~= cells.subrange(0, c as int));
                assert(out@ =~= start + cells_text(nxt));
            }
            c = c + 1;
        }
        out.append("|\n");
        proof {
            assert(cells.subrange(0, c as int) =~= cells);
            let nxt = rows.subrange(0, r + 1);
            assert(nxt.drop_last() =~= rows.subrange(0, r as int));
            assert(nxt.last() == cells);
            assert(out@ =~= mid + row_lines(nxt));
        }
        r = r + 1;
    }
    proof {
        assert(rows.subrange(0, r as int) =~= rows);
        assert(out@ =~= head + section_text(s.model()));
    }
}

impl Section {
    /// The section's body in canonical form: `key = value` lines in key
    /// order, then each row as `| cell | cell |`.
    pub fn to_string(&self) -> (r: String)
        ensures
            r@ == section_text(self.model()),
    {
        let mut out = String::new();
        write_section(&mut out, self);
        proof {
            assert(out@ =~= section_text(self.model()));
        }
        out
    }
}

impl Ion {
    /// The document in canonical form: each section in name order as
    /// `[name]`, its body and a blank line.
    pub fn to_string(&self) -> (r: String)
        ensures
            r@ == document_text(self.model()),
    {
        let map = self.iter();
        let ghost d = self.model();
        let ghost entries = self.spec_sections();
        proof {
            lemma_map_vals(entries, |x: Section| x.model());
            assert(document_text(d.subrange(0, 0)) =~= Seq::<char>::empty());
        }
        let mut out = String::new();
        let mut i: usize = 0;
        while i < map.len()
            invariant
                i <= d.len(),
                d.len() == entries.len(),
                entries == map.spec_entries(),
                forall|j: int| 0 <= j < d.len() ==> #[trigger] d[j] == (entries[j].0, entries[j].1.model()),
                out@ == document_text(d.subrange(0, i as int)),
            decreases d.len() - i,
        {
            let (name, section) = map.entry(i);
            push_char(&mut out, '[');
            out.append(name.as_str());
            out.append("]\n");
            write_section(&mut out, section);
            out.append("\n");
            proof {
                reveal_strlit("[");
                let nxt = d.subrange(0, i + 1);
                assert(nxt.drop_last() =~= d.subrange(0, i as int));
                assert(out@ =~= document_text(nxt));
            }
            i = i + 1;
        }
        proof {
            assert(d.subrange(0, i as int) =~= d);
        }
        out
    }
}

} // verus!
