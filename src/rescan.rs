//! Reading the canonical text of a value back.

use vstd::prelude::*;
use crate::grammar::{
    array_items, decimal_text, dict_items, digits_value, entry_at, find_from, is_digit,
    is_key_char, lemma_find_from_unique, strip_leading_zeros, strip_trailing_zeros, value_at, value_start, Scan,
};
use crate::render::{digit, entries_text, items_text, nat_text, quote, quoted_text, text_of};
use crate::sorted_map::{keys_sorted, lower_bound, map_insert};
use crate::text::{is_blank, key_lt, lemma_run_end_unique};
use crate::value::Node;

verus! {

/// Characters that may follow a value in canonical text.
pub open spec fn ends_value(c: char) -> bool {
    c == ',' || c == ' ' || c == '\n'
}

pub open spec fn all_digits(d: Seq<char>) -> bool {
    forall|i: int| 0 <= i < d.len() ==> is_digit(#[trigger] d[i])
}

/// The canonical text of a float: digits without a superfluous leading
/// zero, a point, and digits that do not end in zero.
pub open spec fn canonical_float(t: Seq<char>) -> bool {
    let k = find_from(t, 0, '.');
    &&& 0 < k < t.len() - 1
    &&& all_digits(t.subrange(0, k))
    &&& (k == 1 || t[0] != '0')
    &&& all_digits(t.subrange(k + 1, t.len() as int))
    &&& t.last() != '0'
}

/// A key as it can be written: one or more key characters.
pub open spec fn plain_key(k: Seq<char>) -> bool {
    k.len() > 0 && forall|i: int| 0 <= i < k.len() ==> is_key_char(#[trigger] k[i])
}

/// Values whose canonical text scans back to themselves: strings without
/// `"`, integers from zero to `i64::MAX`, floats in canonical form with a
/// point, booleans, and arrays and dictionaries (keys written plainly and in
/// order) of such values.
pub open spec fn rescannable(n: Node) -> bool
    decreases n,
{
    match n {
        Node::Str(t) => forall|i: int| 0 <= i < t.len() ==> #[trigger] t[i] != '"',
        Node::Int(i) => 0 <= i <= i64::MAX,
        Node::Float(t) => canonical_float(t),
        Node::Bool(_) => true,
        Node::Array(items) => forall|i: int| 0 <= i < items.len() ==> rescannable(#[trigger] items[i]),
        Node::Dict(d) => keys_sorted(d) && forall|i: int|
            0 <= i < d.len() ==> plain_key(#[trigger] d[i].0) && rescannable(d[i].1),
    }
}

pub proof fn lemma_at(s: Seq<char>, p: int, t: Seq<char>)
    requires
        0 <= p,
        p + t.len() <= s.len(),
        s.subrange(p, p + t.len()) == t,
    ensures
        forall|i: int| 0 <= i < t.len() ==> #[trigger] s[p + i] == t[i],
{
    assert forall|i: int| 0 <= i < t.len() implies #[trigger] s[p + i] == t[i] by {
        assert(s.subrange(p, p + t.len())[i] == s[p + i]);
    }
}

proof fn lemma_nat_text(n: nat)
    ensures
        nat_text(n).len() > 0,
        all_digits(nat_text(n)),
        digits_value(nat_text(n)) == n,
    decreases n,
{
    if n >= 10 {
        lemma_nat_text(n / 10);
        let t = nat_text(n);
        assert(t == nat_text(n / 10).push(digit((n % 10) as int)));
        assert(t.drop_last() =~= nat_text(n / 10));
        assert(t.last() == digit((n % 10) as int));
        assert(0 <= n % 10 < 10);
        assert(digit((n % 10) as int) as int - '0' as int == n % 10);
        assert(digits_value(t) == digits_value(nat_text(n / 10)) * 10 + (n % 10));
        assert((n / 10) * 10 + n % 10 == n) by (nonlinear_arith);
        assert(all_digits(t)) by {
            assert forall|i: int| 0 <= i < t.len() implies is_digit(#[trigger] t[i]) by {
                if i < t.len() - 1 {
                    assert(t[i] == nat_text(n / 10)[i]);
                }
            }
        }
        assert(digit((n % 10) as int) as int - '0' as int == n % 10);
    } else {
        let t = nat_text(n);
        assert(t == seq![digit(n as int)]);
        assert(digit(n as int) as int - '0' as int == n);
        assert(is_digit(digit(n as int)));
        assert(t.drop_last() =~= Seq::<char>::empty());
        assert(digits_value(t.drop_last()) == 0);
        assert(t.last() == digit(n as int));
        assert(all_digits(t));
    }
}

/// The members of an array, from the front.
proof fn lemma_items_front(items: Seq<Node>)
    requires
        items.len() >= 1,
    ensures
        items.len() == 1 ==> items_text(items) == quoted_text(items[0]),
        items.len() >= 2 ==> items_text(items) == quoted_text(items[0]) + ", "@ + items_text(
            items.subrange(1, items.len() as int),
        ),
    decreases items.len(),
{
    let rest = items.subrange(1, items.len() as int);
    if items.len() >= 2 {
        lemma_items_front(items.drop_last());
        assert(items.drop_last().subrange(1, items.len() - 1) =~= rest.drop_last());
        if items.len() == 2 {
            assert(rest.drop_last() =~= Seq::<Node>::empty());
            assert(items_text(rest) == quoted_text(rest.last()));
        } else {
            assert(items_text(rest) == items_text(rest.drop_last()) + ", "@ + quoted_text(rest.last()));
        }
        assert(items.drop_last()[0] == items[0]);
    }
}

/// The entries of a dictionary, from the front.
proof fn lemma_entries_front(d: Seq<(Seq<char>, Node)>)
    requires
        d.len() >= 1,
    ensures
        d.len() == 1 ==> entries_text(d) == d[0].0 + " = "@ + quoted_text(d[0].1),
        d.len() >= 2 ==> entries_text(d) == d[0].0 + " = "@ + quoted_text(d[0].1) + ", "@
            + entries_text(d.subrange(1, d.len() as int)),
    decreases d.len(),
{
    let rest = d.subrange(1, d.len() as int);
    if d.len() >= 2 {
        lemma_entries_front(d.drop_last());
        assert(d.drop_last().subrange(1, d.len() - 1) =~= rest.drop_last());
        if d.len() == 2 {
            assert(rest.drop_last() =~= Seq::<(Seq<char>, Node)>::empty());
        }
        assert(d.drop_last()[0] == d[0]);
    }
}

pub proof fn lemma_first_char(n: Node)
    requires
        rescannable(n),
    ensures
        quoted_text(n).len() > 0,
        ({
            let c = quoted_text(n)[0];
            !is_blank(c) && c != '\n' && c != '\r' && c != ']' && c != '}' && c != ','
        }),
{
    match n {
        Node::Int(i) => {
            lemma_nat_text(i as nat);
            assert(quoted_text(n) == text_of(n));
            assert(text_of(n) == crate::render::int_text(i));
            assert(quoted_text(n) == nat_text(i as nat));
            assert(is_digit(nat_text(i as nat)[0]));
            assert(quoted_text(n).len() > 0);
            assert(is_digit(quoted_text(n)[0]));
        },
        Node::Float(t) => {
            assert(quoted_text(n) == t);
            assert(t.subrange(0, find_from(t, 0, '.'))[0] == t[0]);
        },
        Node::Bool(b) => {
            reveal_strlit("true");
            reveal_strlit("false");
        },
        Node::Str(t) => {
            assert(quoted_text(n) == quote(t));
        },
        Node::Array(items) => {
            reveal_strlit("[ ");
            assert(quoted_text(n) == text_of(n));
            assert(text_of(n) == "[ "@ + items_text(items) + " ]"@);
            assert(quoted_text(n)[0] == '[');
        },
        Node::Dict(d) => {
            reveal_strlit("{ ");
            assert(quoted_text(n) == text_of(n));
            assert(text_of(n) == "{ "@ + entries_text(d) + " }"@);
            assert(quoted_text(n)[0] == '{');
        },
    }
}

/// A value that can be written scans back from its quoted text, followed
/// by a character that ends a value.
pub proof fn lemma_value_rescan(n: Node, s: Seq<char>, p: int)
    requires
        rescannable(n),
        0 <= p,
        p + quoted_text(n).len() < s.len(),
        s.subrange(p, p + quoted_text(n).len()) == quoted_text(n),
        ends_value(s[p + quoted_text(n).len()]),
    ensures
        value_at(s, p) == Scan::Done(n, p + quoted_text(n).len()),
    decreases n, 0int,
{
    let q = quoted_text(n);
    let e = p + q.len();
    lemma_at(s, p, q);
    lemma_first_char(n);
    assert(s[p] == q[0]);
    lemma_run_end_unique(s, p, p, |c: char| is_blank(c));
    assert(value_start(s, p) == p);
    match n {
        Node::Str(t) => {
            assert(s[p] == '"');
            assert forall|i: int| p + 1 <= i < e - 1 implies #[trigger] s[i] != '"' by {
                assert(s[i] == q[i - p]);
                assert(q[i - p] == t[i - p - 1]);
            }
            assert(s[e - 1] == q[q.len() - 1]);
            lemma_find_from_unique(s, p + 1, e - 1, '"');
            assert(s.subrange(p + 1, e - 1) =~= t) by {
                assert forall|i: int| 0 <= i < t.len() implies s[p + 1 + i] == t[i] by {
                    assert(s[p + 1 + i] == q[1 + i]);
                }
            }
        },
        Node::Int(i) => {
            lemma_nat_text(i as nat);
            assert(q == nat_text(i as nat));
            assert forall|k: int| p <= k < e implies is_digit(#[trigger] s[k]) by {
                assert(s[k] == q[k - p]);
            }
            lemma_run_end_unique(s, p, e, |c: char| is_digit(c));
            assert(s.subrange(p, e) == q);
        },
        Node::Float(t) => {
            let k = find_from(t, 0, '.');
            let w = t.subrange(0, k);
            let f = t.subrange(k + 1, t.len() as int);
            crate::grammar::lemma_find_from(t, 0, '.');
            assert forall|j: int| p <= j < p + k implies is_digit(#[trigger] s[j]) by {
                assert(s[j] == t[j - p]);
                assert(w[j - p] == t[j - p]);
            }
            assert(s[p + k] == t[k]);
            lemma_run_end_unique(s, p, p + k, |c: char| is_digit(c));
            assert forall|j: int| p + k + 1 <= j < e implies is_digit(#[trigger] s[j]) by {
                assert(s[j] == t[j - p]);
                assert(f[j - p - k - 1] == t[j - p]);
            }
            lemma_run_end_unique(s, p + k + 1, e, |c: char| is_digit(c));
            assert(s.subrange(p, p + k) =~= w);
            assert(s.subrange(p + k + 1, e) =~= f);
            assert(strip_leading_zeros(w) == w);
            assert(f.last() == t.last());
            assert(strip_trailing_zeros(f) == f);
            assert(decimal_text(w, f) =~= t);
        },
        Node::Bool(b) => {
            reveal_strlit("true");
            reveal_strlit("false");
            if b {
                assert(s.subrange(p, p + 4) =~= "true"@);
            } else {
                assert(s.subrange(p, p + 4) != "true"@) by {
                    assert(s.subrange(p, p + 4)[0] == 'f');
                }
                assert(s.subrange(p, p + 5) =~= "false"@);
            }
        },
        Node::Array(items) => {
            reveal_strlit("[ ");
            reveal_strlit(" ]");
            assert(q == "[ "@ + items_text(items) + " ]"@);
            if items.len() == 0 {
                assert(q =~= seq!['[', ' ', ' ', ']']);
                lemma_run_end_unique(s, p + 1, p + 3, |c: char| is_blank(c));
                assert(Seq::<Node>::empty() =~= items);
            } else {
                let tail = " "@ + items_text(items) + " ]"@;
                reveal_strlit(" ");
                assert(s.subrange(p + 1, e) =~= tail) by {
                    assert forall|j: int| 0 <= j < tail.len() implies s[p + 1 + j] == tail[j] by {
                        assert(s[p + 1 + j] == q[1 + j]);
                    }
                }
                assert(rescannable(n) == (forall|i: int| 0 <= i < items.len() ==> rescannable(#[trigger] items[i])));
                lemma_array_tail(items, s, p + 1, Seq::empty());
                assert(Seq::<Node>::empty() + items =~= items);
            }
        },
        Node::Dict(d) => {
            reveal_strlit("{ ");
            reveal_strlit(" }");
            assert(q == "{ "@ + entries_text(d) + " }"@);
            if d.len() == 0 {
                assert(q =~= seq!['{', ' ', ' ', '}']);
                lemma_run_end_unique(s, p + 1, p + 3, |c: char| is_blank(c));
                assert(Seq::<(Seq<char>, Node)>::empty() =~= d);
            } else {
                let tail = " "@ + entries_text(d) + " }"@;
                reveal_strlit(" ");
                assert(s.subrange(p + 1, e) =~= tail) by {
                    assert forall|j: int| 0 <= j < tail.len() implies s[p + 1 + j] == tail[j] by {
                        assert(s[p + 1 + j] == q[1 + j]);
                    }
                }
                assert(rescannable(n) == (keys_sorted(d) && (forall|i: int| 0 <= i < d.len() ==> plain_key(#[trigger] d[i].0) && rescannable(d[i].1))));
                assert(Seq::<(Seq<char>, Node)>::empty() + d =~= d);
                lemma_dict_tail(d, s, p + 1, Seq::empty());
                assert(Seq::<(Seq<char>, Node)>::empty() + d =~= d);
            }
        },
    }
}

/// The rest of an array, ` a, b ]` from `r`, scans to the items after `acc`.
proof fn lemma_array_tail(items: Seq<Node>, s: Seq<char>, r: int, acc: Seq<Node>)
    requires
        items.len() >= 1,
        forall|i: int| 0 <= i < items.len() ==> rescannable(#[trigger] items[i]),
        0 <= r,
        r + (" "@ + items_text(items) + " ]"@).len() <= s.len(),
        s.subrange(r, r + (" "@ + items_text(items) + " ]"@).len()) == " "@ + items_text(items) + " ]"@,
    ensures
        array_items(s, r, acc) == Scan::Done(Node::Array(acc + items), r + (" "@ + items_text(items) + " ]"@).len()),
    decreases items, 1int,
{
    let tail = " "@ + items_text(items) + " ]"@;
    reveal_strlit(" ");
    reveal_strlit(" ]");
    reveal_strlit(", ");
    lemma_at(s, r, tail);
    lemma_items_front(items);
    let n0 = items[0];
    let q0 = quoted_text(n0);
    lemma_first_char(n0);
    assert(tail[0] == ' ');
    assert(s.subrange(r, r + tail.len())[0] == s[r]);
    assert(s[r] == ' ');
    assert(s[r + 1] == tail[1]);
    assert(tail[1] == q0[0]);
    lemma_run_end_unique(s, r, r + 1, |c: char| is_blank(c));
    let e0 = r + 1 + q0.len();
    assert(s.subrange(r + 1, e0) =~= q0) by {
        assert forall|j: int| 0 <= j < q0.len() implies s[r + 1 + j] == q0[j] by {
            assert(s[r + 1 + j] == tail[1 + j]);
        }
    }
    assert(s[e0] == tail[1 + q0.len() as int]);
    lemma_value_rescan(n0, s, r + 1);
    assert(r + 1 < e0 <= s.len());
    assert(array_items(s, r, acc) == array_items(s, e0, acc.push(n0)));
    if items.len() == 1 {
        assert(s[e0] == ' ');
        assert(s[e0 + 1] == tail[2 + q0.len() as int]);
        assert(s[e0 + 1] == ']');
        lemma_run_end_unique(s, e0, e0 + 1, |c: char| is_blank(c));
        assert(acc.push(n0) =~= acc + items);
    } else {
        let rest = items.subrange(1, items.len() as int);
        let tail2 = " "@ + items_text(rest) + " ]"@;
        assert(s[e0] == ',');
        lemma_run_end_unique(s, e0, e0, |c: char| is_blank(c));
        assert(s.subrange(e0 + 1, e0 + 1 + tail2.len()) =~= tail2) by {
            assert forall|j: int| 0 <= j < tail2.len() implies s[e0 + 1 + j] == tail2[j] by {
                assert(s[e0 + 1 + j] == tail[2 + q0.len() + j]);
            }
        }
        assert forall|i: int| 0 <= i < rest.len() implies rescannable(#[trigger] rest[i]) by {
            assert(rest[i] == items[i + 1]);
        }
        lemma_array_tail(rest, s, e0 + 1, acc.push(n0));
        assert(acc.push(n0) + rest =~= acc + items);
    }
}

/// The rest of a dictionary, ` k = v, ... }` from `r`, scans to its entries
/// after those of `acc`, whose keys all come first.
proof fn lemma_dict_tail(d: Seq<(Seq<char>, Node)>, s: Seq<char>, r: int, acc: Seq<(Seq<char>, Node)>)
    requires
        d.len() >= 1,
        keys_sorted(acc + d),
        forall|i: int| 0 <= i < d.len() ==> plain_key(#[trigger] d[i].0) && rescannable(d[i].1),
        0 <= r,
        r + (" "@ + entries_text(d) + " }"@).len() <= s.len(),
        s.subrange(r, r + (" "@ + entries_text(d) + " }"@).len()) == " "@ + entries_text(d) + " }"@,
    ensures
        dict_items(s, r, acc) == Scan::Done(Node::Dict(acc + d), r + (" "@ + entries_text(d) + " }"@).len()),
    decreases d, 1int,
{
    let tail = " "@ + entries_text(d) + " }"@;
    reveal_strlit(" ");
    reveal_strlit(" }");
    reveal_strlit(", ");
    reveal_strlit(" = ");
    lemma_at(s, r, tail);
    lemma_entries_front(d);
    let k0 = d[0].0;
    let n0 = d[0].1;
    let q0 = quoted_text(n0);
    lemma_first_char(n0);
    let ks = r + 1;
    let ke = ks + k0.len();
    let vs = ke + 3;
    let e0 = vs + q0.len();
    lemma_entry_rescan(d, s, r);
    assert(tail[0] == ' ');
    assert(s.subrange(r, r + tail.len())[0] == s[r]);
    lemma_run_end_unique(s, r, ks, |c: char| is_blank(c));
    assert(r < ks < e0 <= s.len());
    assert(dict_items(s, r, acc) == dict_items(s, e0, map_insert(acc, k0, n0)));
    assert(s[e0] == tail[e0 - r]);
    assert(e0 - r == 4 + k0.len() + q0.len());
    // The new key comes after every key so far.
    assert forall|j: int| 0 <= j < acc.len() implies key_lt(#[trigger] acc[j].0, k0) by {
        assert((acc + d)[j] == acc[j]);
        assert((acc + d)[acc.len() as int] == d[0]);
    }
    lemma_lower_bound_after(acc, k0, 0);
    assert(map_insert(acc, k0, n0) =~= acc.push((k0, n0)));
    if d.len() == 1 {
        assert(s[e0] == ' ');
        assert(s[e0 + 1] == tail[5 + k0.len() as int + q0.len() as int]);
        lemma_run_end_unique(s, e0, e0 + 1, |c: char| is_blank(c));
        assert(acc.push((k0, n0)) =~= acc + d);
    } else {
        let rest = d.subrange(1, d.len() as int);
        let tail2 = " "@ + entries_text(rest) + " }"@;
        assert(s[e0] == ',');
        lemma_run_end_unique(s, e0, e0, |c: char| is_blank(c));
        assert(s.subrange(e0 + 1, e0 + 1 + tail2.len()) =~= tail2) by {
            assert forall|j: int| 0 <= j < tail2.len() implies s[e0 + 1 + j] == tail2[j] by {
                assert(s[e0 + 1 + j] == tail[5 + k0.len() + q0.len() + j]);
            }
        }
        assert forall|i: int| 0 <= i < rest.len() implies plain_key(#[trigger] rest[i].0) && rescannable(rest[i].1) by {
            assert(rest[i] == d[i + 1]);
        }
        assert(acc.push((k0, n0)) + rest =~= acc + d);
        lemma_dict_tail(rest, s, e0 + 1, acc.push((k0, n0)));
    }
}

/// The first entry of a dictionary's rest, `k = v` after a blank at `r`,
/// scans back to itself.
proof fn lemma_entry_rescan(d: Seq<(Seq<char>, Node)>, s: Seq<char>, r: int)
    requires
        d.len() >= 1,
        plain_key(d[0].0),
        rescannable(d[0].1),
        0 <= r,
        r + (" "@ + entries_text(d) + " }"@).len() <= s.len(),
        s.subrange(r, r + (" "@ + entries_text(d) + " }"@).len()) == " "@ + entries_text(d) + " }"@,
    ensures
        entry_at(s, r + 1) == Scan::Done((d[0].0, d[0].1), r + 4 + d[0].0.len() + quoted_text(d[0].1).len()),
        s[r + 1] == d[0].0[0],
        r + 4 + d[0].0.len() + quoted_text(d[0].1).len() < s.len(),
    decreases d, 0int,
{
    let tail = " "@ + entries_text(d) + " }"@;
    reveal_strlit(" ");
    reveal_strlit(" }");
    reveal_strlit(", ");
    reveal_strlit(" = ");
    lemma_at(s, r, tail);
    lemma_entries_front(d);
    let k0 = d[0].0;
    let n0 = d[0].1;
    let q0 = quoted_text(n0);
    lemma_first_char(n0);
    assert(decreases_to!(d => d[0]));
    let ks = r + 1;
    let ke = ks + k0.len();
    assert(tail[0] == ' ');
    assert(s.subrange(r, r + tail.len())[0] == s[r]);
    assert(s[r] == ' ');
    assert forall|j: int| ks <= j < ke implies is_key_char(#[trigger] s[j]) by {
        assert(s[j] == tail[j - r]);
        assert(tail[j - r] == k0[j - ks]);
    }
    assert(s[ks] == k0[0]);
    lemma_run_end_unique(s, r, ks, |c: char| is_blank(c));
    assert(s[ke] == tail[1 + k0.len() as int]);
    assert(s[ke] == ' ');
    assert(s[ke + 1] == '=' && s[ke + 2] == ' ') by {
        assert(s[ke + 1] == tail[2 + k0.len() as int]);
        assert(s[ke + 2] == tail[3 + k0.len() as int]);
    }
    lemma_run_end_unique(s, ks, ke, |c: char| is_key_char(c));
    lemma_run_end_unique(s, ke, ke + 1, |c: char| is_blank(c));
    let vs = ke + 3;
    assert(s[vs] == tail[4 + k0.len() as int]);
    assert(s[vs] == q0[0]);
    lemma_run_end_unique(s, ke + 2, vs, |c: char| is_blank(c));
    let e0 = vs + q0.len();
    assert(s.subrange(vs, e0) =~= q0) by {
        assert forall|j: int| 0 <= j < q0.len() implies s[vs + j] == q0[j] by {
            assert(s[vs + j] == tail[4 + k0.len() + j]);
        }
    }
    assert(s[e0] == tail[4 + k0.len() as int + q0.len() as int]);
    lemma_value_rescan(n0, s, vs);
    assert(s.subrange(ks, ke) =~= k0) by {
        assert forall|j: int| 0 <= j < k0.len() implies s[ks + j] == k0[j] by {
            assert(s[ks + j] == tail[1 + j]);
        }
    }
    assert(entry_at(s, ks) == Scan::Done((k0, n0), e0));
}

proof fn lemma_lower_bound_after(acc: Seq<(Seq<char>, Node)>, k: Seq<char>, i: int)
    requires
        0 <= i <= acc.len(),
        forall|j: int| 0 <= j < acc.len() ==> key_lt(#[trigger] acc[j].0, k),
    ensures
        lower_bound(acc, k, i) == acc.len(),
    decreases acc.len() - i,
{
    if i < acc.len() {
        lemma_lower_bound_after(acc, k, i + 1);
    }
}

} // verus!
