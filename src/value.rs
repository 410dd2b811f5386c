//! Typed values and their mathematical model.

use vstd::prelude::*;
use crate::error::IonError;
use crate::sorted_map::{map_lookup, map_vals, SortedMap};

verus! {

broadcast use vstd::std_specs::vec::axiom_vec_index_decreases;

/// A dictionary: values under string keys, in key order.
pub type Dictionary = SortedMap<Value>;

/// A table row: its cells in document order.
pub type Row = Vec<Value>;

/// A value of an entry, an array element or a table cell.
///
/// A float is held as its canonical decimal text: no leading zeros before the
/// point but one, no trailing zeros after it, and no point at all when the
/// fraction is zero (`"4.10"` is held as `"4.1"`, `"4.0"` as `"4"`).
#[derive(Debug, PartialEq)]
pub enum Value {
    String(String),
    Integer(i64),
    Float(String),
    Boolean(bool),
    Array(Row),
    Dictionary(Dictionary),
}

/// What a value means: the same shape, over sequences and mathematical integers.
pub enum Node {
    Str(Seq<char>),
    Int(int),
    Float(Seq<char>),
    Bool(bool),
    Array(Seq<Node>),
    Dict(Seq<(Seq<char>, Node)>),
}

impl Value {
    pub open spec fn node(&self) -> Node
        decreases self,
    {
        match self {
            Value::String(s) => Node::Str(s@),
            Value::Integer(i) => Node::Int(*i as int),
            Value::Float(t) => Node::Float(t@),
            Value::Boolean(b) => Node::Bool(*b),
            Value::Array(v) => Node::Array(nodes_of(v@)),
            Value::Dictionary(d) => {
                proof {
                    d.lemma_raw();
                }
                Node::Dict(dict_nodes(d.raw()))
            },
        }
    }
}

/// The name of a value's kind.
pub open spec fn kind_name(n: Node) -> Seq<char> {
    match n {
        Node::Str(_) => "string"@,
        Node::Int(_) => "integer"@,
        Node::Float(_) => "float"@,
        Node::Bool(_) => "boolean"@,
        Node::Array(_) => "array"@,
        Node::Dict(_) => "dictionary"@,
    }
}

impl Value {
    /// A string value.
    pub fn new_string(value: &str) -> (r: Self)
        ensures
            r.node() == Node::Str(value@),
    {
        Value::String(value.to_owned())
    }

    /// An array holding the one string `value`.
    pub fn new_string_array(value: &str) -> (r: Self)
        ensures
            r.node() == Node::Array(seq![Node::Str(value@)]),
    {
        Self::new_array(Self::new_string(value))
    }

    /// An array holding the one value `value`.
    pub fn new_array(value: Value) -> (r: Self)
        ensures
            r.node() == Node::Array(seq![value.node()]),
    {
        let v = vec![value];
        proof {
            assert(v@ =~= seq![value]);
            assert(v@.drop_last() =~= Seq::<Value>::empty());
            assert(nodes_of(v@.drop_last()) =~= Seq::<Node>::empty());
            assert(nodes_of(v@) =~= seq![value.node()]);
        }
        Value::Array(v)
    }

    /// The name of the value's kind: `string`, `integer`, `float`,
    /// `boolean`, `array` or `dictionary`.
    pub fn type_str(&self) -> (r: &'static str)
        ensures
            r@ == kind_name(self.node()),
    {
        match self {
            Value::String(..) => "string",
            Value::Integer(..) => "integer",
            Value::Float(..) => "float",
            Value::Boolean(..) => "boolean",
            Value::Array(..) => "array",
            Value::Dictionary(..) => "dictionary",
        }
    }

    pub fn as_string(&self) -> (r: Option<&String>)
        ensures
            match self {
                Value::String(v) => r == Some(v),
                _ => r is None,
            },
    {
        match self {
            Value::String(v) => Some(v),
            _ => None,
        }
    }

    pub fn is_string(&self) -> (r: bool)
        ensures
            r == (self is String),
    {
        matches!(self, Value::String(_))
    }

    pub fn as_str(&self) -> (r: Option<&str>)
        ensures
            match self {
                Value::String(v) => r matches Some(x) && x@ == v@,
                _ => r is None,
            },
    {
        match self {
            Value::String(v) => Some(v.as_str()),
            _ => None,
        }
    }

    pub fn as_integer(&self) -> (r: Option<i64>)
        ensures
            match self {
                Value::Integer(v) => r == Some(*v),
                _ => r is None,
            },
    {
        match self {
            Value::Integer(v) => Some(*v),
            _ => None,
        }
    }

    /// The canonical decimal text of a float.
    pub fn as_decimal(&self) -> (r: Option<&str>)
        ensures
            match self {
                Value::Float(v) => r matches Some(x) && x@ == v@,
                _ => r is None,
            },
    {
        match self {
            Value::Float(v) => Some(v.as_str()),
            _ => None,
        }
    }

    pub fn as_boolean(&self) -> (r: Option<bool>)
        ensures
            match self {
                Value::Boolean(v) => r == Some(*v),
                _ => r is None,
            },
    {
        match self {
            Value::Boolean(v) => Some(*v),
            _ => None,
        }
    }

    pub fn as_array(&self) -> (r: Option<&Vec<Value>>)
        ensures
            match self {
                Value::Array(v) => r == Some(v),
                _ => r is None,
            },
    {
        match self {
            Value::Array(v) => Some(v),
            _ => None,
        }
    }

    pub fn as_dictionary(&self) -> (r: Option<&Dictionary>)
        ensures
            match self {
                Value::Dictionary(v) => r == Some(v),
                _ => r is None,
            },
    {
        match self {
            Value::Dictionary(v) => Some(v),
            _ => None,
        }
    }

    /// The value under `name` in a dictionary; `None` for any other value.
    pub fn get(&self, name: &str) -> (r: Option<&Value>)
        ensures
            match self {
                Value::Dictionary(d) => (r is None <==> map_lookup(d.spec_entries(), name@) is None)
                    && (r matches Some(x) ==> map_lookup(d.spec_entries(), name@) == Some(*x)),
                _ => r is None,
            },
    {
        match self {
            Value::Dictionary(d) => d.get(name),
            _ => None,
        }
    }
}

/// A copy of `v`.
fn clone_value(v: &Value) -> (r: Value)
    decreases v,
{
    match v {
        Value::String(s) => Value::String(s.clone()),
        Value::Integer(i) => Value::Integer(*i),
        Value::Float(t) => Value::Float(t.clone()),
        Value::Boolean(b) => Value::Boolean(*b),
        Value::Array(items) => {
            let mut out: Vec<Value> = Vec::new();
            let mut i: usize = 0;
            while i < items.len()
                invariant
                    i <= items@.len(),
                    decreases_to!(v => items),
                decreases items@.len() - i,
            {
                proof {
                    assert(decreases_to!(items => items@[i as int]));
                }
                out.push(clone_value(&items[i]));
                i = i + 1;
            }
            Value::Array(out)
        },
        Value::Dictionary(d) => Value::Dictionary(clone_dictionary(d)),
    }
}

/// A copy of `d`.
fn clone_dictionary(d: &Dictionary) -> (r: Dictionary)
    decreases d,
{
    proof {
        d.lemma_raw();
    }
    let mut out: Dictionary = SortedMap::new();
    let mut i: usize = 0;
    while i < d.len()
        invariant
            i <= d.spec_entries().len(),
            d.raw().len() == d.spec_entries().len(),
            decreases_to!(d => d.raw()),
        decreases d.spec_entries().len() - i,
    {
        let (k, x) = d.entry(i);
        proof {
            assert(decreases_to!(d.raw() => d.raw()[i as int]));
            assert(decreases_to!(d.raw()[i as int] => d.raw()[i as int].1));
        }
        out.insert(k.clone(), clone_value(x));
        i = i + 1;
    }
    out
}

impl Clone for Value {
    fn clone(&self) -> Self {
        clone_value(self)
    }
}

impl Clone for Dictionary {
    fn clone(&self) -> Self {
        clone_dictionary(self)
    }
}

impl std::str::FromStr for Value {
    type Err = IonError;

    /// A string value holding `s`.
    fn from_str(s: &str) -> Result<Value, IonError> {
        Ok(Value::String(s.to_owned()))
    }
}

pub proof fn lemma_nodes_of(s: Seq<Value>)
    ensures
        nodes_of(s).len() == s.len(),
        forall|i: int| 0 <= i < s.len() ==> #[trigger] nodes_of(s)[i] == s[i].node(),
    decreases s.len(),
{
    if s.len() > 0 {
        lemma_nodes_of(s.drop_last());
    }
}

/// The models of a sequence of values.
pub open spec fn nodes_of(s: Seq<Value>) -> Seq<Node>
    decreases s,
{
    if s.len() == 0 {
        Seq::empty()
    } else {
        nodes_of(s.drop_last()).push(s.last().node())
    }
}

/// The models of a dictionary's entries.
pub open spec fn dict_nodes(s: Seq<(String, Value)>) -> Seq<(Seq<char>, Node)>
    decreases s,
{
    if s.len() == 0 {
        Seq::empty()
    } else {
        dict_nodes(s.drop_last()).push((s.last().0@, s.last().1.node()))
    }
}

/// The model of a dictionary's entries, from the dictionary itself.
pub proof fn lemma_dict_nodes(d: &Dictionary)
    ensures
        dict_nodes(d.raw()) == map_vals(d.spec_entries(), |v: Value| v.node()),
{
    d.lemma_raw();
    lemma_dict_nodes_seq(d.raw());
}

proof fn lemma_dict_nodes_seq(s: Seq<(String, Value)>)
    ensures
        dict_nodes(s) == map_vals(s.map_values(|e: (String, Value)| (e.0@, e.1)), |v: Value| v.node()),
    decreases s.len(),
{
    let m = s.map_values(|e: (String, Value)| (e.0@, e.1));
    if s.len() > 0 {
        lemma_dict_nodes_seq(s.drop_last());
        assert(m.drop_last() =~= s.drop_last().map_values(|e: (String, Value)| (e.0@, e.1)));
    } else {
        assert(m =~= Seq::<(Seq<char>, Value)>::empty());
    }
}

/// The models of a sequence of rows.
pub open spec fn rows_nodes(s: Seq<Row>) -> Seq<Seq<Node>> {
    s.map_values(|r: Row| nodes_of(r@))
}

} // verus!
