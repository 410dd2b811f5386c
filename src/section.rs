//! Sections: a dictionary of entries and a list of table rows.

use vstd::prelude::*;
use crate::error::IonError;
use crate::grammar::SectionModel;
use crate::sorted_map::{map_lookup, map_vals};
use crate::text::chars_of;
use crate::value::{lemma_nodes_of, rows_nodes, Dictionary, Node, Row, Value};

verus! {

/// A non-empty run of `-`.
pub open spec fn all_dashes(t: Seq<char>) -> bool {
    t.len() > 0 && forall|i: int| 0 <= i < t.len() ==> t[i] == '-'
}

/// Whether rows open with a header: a label row, then a row whose first
/// cell is a string of dashes.
pub open spec fn has_header(rows: Seq<Seq<Node>>) -> bool {
    rows.len() > 1 && rows[1].len() > 0 && match rows[1][0] {
        Node::Str(t) => all_dashes(t),
        _ => false,
    }
}

/// Whether `s` is a non-empty run of `-`.
fn is_dashes(s: &str) -> (r: bool)
    ensures
        r == all_dashes(s@),
{
    let c = chars_of(s);
    if c.len() == 0 {
        return false;
    }
    let mut i: usize = 0;
    while i < c.len()
        invariant
            i <= c@.len(),
            c@ == s@,
            forall|j: int| 0 <= j < i ==> c@[j] == '-',
        decreases c@.len() - i,
    {
        if c[i] != '-' {
            return false;
        }
        i = i + 1;
    }
    true
}

/// A named unit of a document: entries in key order, and table rows in
/// document order.
#[derive(Debug, PartialEq)]
pub struct Section {
    pub dictionary: Dictionary,
    pub rows: Vec<Row>,
}

impl Section {
    /// What the section holds, as models.
    pub open spec fn model(&self) -> SectionModel {
        SectionModel {
            dict: map_vals(self.dictionary.spec_entries(), |v: Value| v.node()),
            rows: rows_nodes(self.rows@),
        }
    }

    /// An empty section.
    pub fn new() -> (r: Section)
        ensures
            r.dictionary.spec_entries().len() == 0,
            r.rows@.len() == 0,
    {
        Self::with_capacity(1)
    }

    /// An empty section with room for `n` rows.
    pub fn with_capacity(n: usize) -> (r: Section)
        ensures
            r.dictionary.spec_entries().len() == 0,
            r.rows@.len() == 0,
    {
        Section { dictionary: Dictionary::new(), rows: Vec::with_capacity(n) }
    }

    /// The value of the entry `name`.
    pub fn get(&self, name: &str) -> (r: Option<&Value>)
        ensures
            r is None <==> map_lookup(self.dictionary.spec_entries(), name@) is None,
            r matches Some(x) ==> map_lookup(self.dictionary.spec_entries(), name@) == Some(*x),
    {
        self.dictionary.get(name)
    }

    /// The value of the entry `key`, or `MissingValue(key)`.
    pub fn fetch(&self, key: &str) -> (r: Result<&Value, IonError>)
        ensures
            r is Err <==> map_lookup(self.dictionary.spec_entries(), key@) is None,
            r matches Ok(x) ==> map_lookup(self.dictionary.spec_entries(), key@) == Some(*x),
            r matches Err(e) ==> e matches IonError::MissingValue(k) && k@ == key@,
    {
        match self.get(key) {
            Some(x) => Ok(x),
            None => Err(IonError::MissingValue(key.to_owned())),
        }
    }

    /// The rows without a header: when the first cell of the second row is
    /// a string of dashes, the first two rows (labels and separator) are
    /// left out; otherwise all rows are kept.
    pub fn rows_without_header(&self) -> (r: &[Row])
        ensures
            has_header(self.model().rows) ==> r@ == self.rows@.subrange(2, self.rows@.len() as int),
            has_header(self.model().rows) ==> r@.len() == self.rows@.len() - 2,
            !has_header(self.model().rows) ==> r@ == self.rows@,
    {
        if self.header_present() {
            vstd::slice::slice_subrange(self.rows.as_slice(), 2, self.rows.len())
        } else {
            self.rows.as_slice()
        }
    }

    /// Hands out the rows without a header one by one, as `rows_without_header` has them.
    pub fn iter_rows(&self) -> (r: IntoIter<&Row>)
        ensures
            r.remaining().len() == if has_header(self.model().rows) {
                self.rows@.len() - 2
            } else {
                self.rows@.len() as int
            },
            forall|i: int| 0 <= i < r.remaining().len() ==> *#[trigger] r.remaining()[i] == if has_header(self.model().rows) {
                self.rows@[i + 2]
            } else {
                self.rows@[i]
            },
    {
        let rows = self.rows_without_header();
        let mut v: Vec<&Row> = Vec::new();
        let mut i: usize = 0;
        while i < rows.len()
            invariant
                i <= rows@.len(),
                v@.len() == i,
                forall|j: int| 0 <= j < i ==> *#[trigger] v@[j] == rows@[j],
            decreases rows@.len() - i,
        {
            v.push(&rows[i]);
            i = i + 1;
        }
        IntoIter::new(v)
    }

    /// Whether the rows open with a header, by the rule of `rows_without_header`.
    fn header_present(&self) -> (r: bool)
        ensures
            r == has_header(self.model().rows),
    {
        proof {
            if self.rows@.len() > 1 {
                lemma_nodes_of(self.rows@[1]@);
            }
        }
        if self.rows.len() > 1 {
            let row = &self.rows[1];
            if row.len() > 0 {
                if let Value::String(s) = &row[0] {
                    return is_dashes(s.as_str());
                }
            }
        }
        false
    }

    /// Hands out the rows one by one, the section given up: the rows that
    /// `rows_without_header` keeps.
    pub fn into_iter(self) -> (r: IntoIter<Row>)
        ensures
            has_header(self.model().rows) ==> r.remaining() == self.rows@.subrange(
                2,
                self.rows@.len() as int,
            ),
            !has_header(self.model().rows) ==> r.remaining() == self.rows@,
    {
        let header = self.header_present();
        let mut rows = self.rows;
        if header {
            let tail = rows.split_off(2);
            IntoIter::new(tail)
        } else {
            IntoIter::new(rows)
        }
    }
}

/// Rows handed out one at a time, in order.
pub struct IntoIter<T> {
    rest: Vec<T>,
}

impl<T> IntoIter<T> {
    /// The items still to come, in order.
    pub closed spec fn remaining(&self) -> Seq<T> {
        self.rest@.reverse()
    }

    /// Hands out `items` in order.
    pub fn new(items: Vec<T>) -> (r: Self)
        ensures
            r.remaining() == items@,
    {
        let mut items = items;
        let mut rest: Vec<T> = Vec::new();
        let ghost all = items@;
        while items.len() > 0
            invariant
                items@ + rest@.reverse() == all,
            decreases items@.len(),
        {
            let ghost before = items@;
            let x = items.pop().unwrap();
            proof {
                assert(rest@.push(x).reverse() =~= seq![x] + rest@.reverse());
                assert(before =~= items@.push(x));
                assert(items@ + rest@.push(x).reverse() =~= before + rest@.reverse());
            }
            rest.push(x);
        }
        proof {
            assert(items@ + rest@.reverse() =~= rest@.reverse());
        }
        IntoIter { rest }
    }

    /// The next item, if any.
    pub fn next(&mut self) -> (r: Option<T>)
        ensures
            old(self).remaining().len() == 0 ==> r is None && final(self).remaining() == old(self).remaining(),
            old(self).remaining().len() > 0 ==> r == Some(old(self).remaining()[0])
                && final(self).remaining() == old(self).remaining().drop_first(),
    {
        let r = self.rest.pop();
        proof {
            if old(self).rest@.len() > 0 {
                assert(old(self).rest@.reverse() =~= seq![old(self).rest@.last()] + self.rest@.reverse());
            }
        }
        r
    }
}

} // verus!
