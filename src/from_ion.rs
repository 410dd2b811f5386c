//! Conversion of values and sections into caller types.

use vstd::prelude::*;
use crate::grammar::{digits_value, is_digit};
use crate::section::Section;
use crate::text::chars_of;
use crate::value::Value;

verus! {

/// A type that can be read from an ION value or section.
pub trait FromIon<T>: Sized {
    type Err;

    fn from_ion(value: &T) -> Result<Self, Self::Err>;
}

/// The digits of an unsigned number's text: all of it, or what follows a leading `+`.
pub open spec fn unsigned_digits(t: Seq<char>) -> Seq<char> {
    if t.len() > 0 && t[0] == '+' {
        t.drop_first()
    } else {
        t
    }
}

pub open spec fn all_digits(d: Seq<char>) -> bool {
    forall|i: int| 0 <= i < d.len() ==> is_digit(#[trigger] d[i])
}

/// The number that the text `t` writes in decimal digits (at least one),
/// possibly after a `+`.
pub open spec fn unsigned_value(t: Seq<char>) -> Option<int> {
    if unsigned_digits(t).len() > 0 && all_digits(unsigned_digits(t)) {
        Some(digits_value(unsigned_digits(t)))
    } else {
        None
    }
}

/// The number that `t` writes, if it is at most `max`.
pub fn parse_unsigned(t: &str, max: u64) -> (r: Option<u64>)
    ensures
        match unsigned_value(t@) {
            Some(n) => if n <= max {
                r == Some(n as u64)
            } else {
                r is None
            },
            None => r is None,
        },
{
    let c = chars_of(t);
    let start: usize = if c.len() > 0 && c[0] == '+' { 1 } else { 0 };
    let ghost d = c@.subrange(start as int, c@.len() as int);
    proof {
        if start == 1 {
            assert(d =~= t@.drop_first());
        } else {
            assert(d =~= t@);
        }
        assert(d == unsigned_digits(t@));
    }
    if start == c.len() {
        return None;
    }
    let mut j = start;
    while j < c.len()
        invariant
            start <= j <= c@.len(),
            d == c@.subrange(start as int, c@.len() as int),
            c@ == t@,
            d == unsigned_digits(t@),
            forall|k: int| start <= k < j ==> is_digit(#[trigger] c@[k]),
        decreases c@.len() - j,
    {
        if c[j] < '0' || c[j] > '9' {
            proof {
                assert(d[j - start] == c@[j as int]);
                assert(!is_digit(d[j - start]));
                assert(!all_digits(d));
            }
            return None;
        }
        j = j + 1;
    }
    proof {
        assert forall|k: int| 0 <= k < d.len() implies is_digit(#[trigger] d[k]) by {
            assert(d[k] == c@[k + start]);
        }
    }
    digits_upto(&c, start, max)
}

/// The value of the digits of `c` from `start` on, if it is at most `max`.
fn digits_upto(c: &Vec<char>, start: usize, max: u64) -> (r: Option<u64>)
    requires
        start <= c@.len(),
        forall|k: int| start <= k < c@.len() ==> is_digit(#[trigger] c@[k]),
    ensures
        ({
            let n = digits_value(c@.subrange(start as int, c@.len() as int));
            if n <= max {
                r == Some(n as u64)
            } else {
                r is None
            }
        }),
{
    let ghost d = c@.subrange(start as int, c@.len() as int);
    let mut v: u64 = 0;
    let mut i = start;
    proof {
        assert(d.subrange(0, 0) =~= Seq::<char>::empty());
    }
    while i < c.len()
        invariant
            start <= i <= c@.len(),
            d == c@.subrange(start as int, c@.len() as int),
            forall|k: int| start <= k < c@.len() ==> is_digit(#[trigger] c@[k]),
            v as int == digits_value(d.subrange(0, i - start)),
            v <= max,
        decreases c@.len() - i,
    {
        let x = (c[i] as u32 - '0' as u32) as u64;
        proof {
            assert(is_digit(c@[i as int]));
            assert(d.subrange(0, i - start + 1).drop_last() =~= d.subrange(0, i - start));
        }
        if x > max || v > (max - x) / 10 {
            proof {
                if x <= max {
                    assert(v * 10 + x > max) by (nonlinear_arith)
                        requires
                            v > (max - x) / 10,
                            x <= 9,
                            x <= max,
                    ;
                }
                lemma_digits_prefix(d, i - start + 1);
            }
            return None;
        }
        proof {
            assert(v * 10 + x <= max) by (nonlinear_arith)
                requires
                    v <= (max - x) / 10,
                    x <= 9,
            ;
        }
        v = v * 10 + x;
        i = i + 1;
    }
    proof {
        assert(d.subrange(0, i - start) =~= d);
    }
    Some(v)
}

/// The number that the text `t` writes in decimal digits, possibly after
/// a `+` or a `-`.
pub open spec fn signed_value(t: Seq<char>) -> Option<int> {
    if t.len() > 0 && t[0] == '-' {
        if t.drop_first().len() > 0 && all_digits(t.drop_first()) {
            Some(-digits_value(t.drop_first()))
        } else {
            None
        }
    } else {
        unsigned_value(t)
    }
}

/// The number that `t` writes, if it lies from `min` to `max`.
pub fn parse_signed(t: &str, min: i64, max: i64) -> (r: Option<i64>)
    ensures
        match signed_value(t@) {
            Some(n) => if min <= n <= max {
                r == Some(n as i64)
            } else {
                r is None
            },
            None => r is None,
        },
{
    let c = chars_of(t);
    if c.len() == 0 || c[0] != '-' {
        proof {
            if unsigned_value(t@) is Some {
                crate::parser::lemma_digits_nonneg(unsigned_digits(t@));
            }
        }
        let n: i128 = match parse_unsigned(t, 0xffff_ffff_ffff_ffff) {
            Some(u) => u as i128,
            None => return None,
        };
        return if min as i128 <= n && n <= max as i128 {
            Some(n as i64)
        } else {
            None
        };
    }
    let ghost d = c@.subrange(1, c@.len() as int);
    proof {
        assert(d =~= t@.drop_first());
    }
    if c.len() == 1 {
        return None;
    }
    let mut j: usize = 1;
    while j < c.len()
        invariant
            1 <= j <= c@.len(),
            c@ == t@,
            d == c@.subrange(1, c@.len() as int),
            d == t@.drop_first(),
            forall|k: int| 1 <= k < j ==> is_digit(#[trigger] c@[k]),
        decreases c@.len() - j,
    {
        if c[j] < '0' || c[j] > '9' {
            proof {
                assert(d[j - 1] == c@[j as int]);
                assert(!is_digit(d[j - 1]));
                assert(!all_digits(d));
            }
            return None;
        }
        j = j + 1;
    }
    proof {
        assert forall|k: int| 0 <= k < d.len() implies is_digit(#[trigger] d[k]) by {
            assert(d[k] == c@[k + 1]);
        }
        crate::parser::lemma_digits_nonneg(d);
    }
    let n: i128 = match digits_upto(&c, 1, 0x8000_0000_0000_0000) {
        Some(m) => -(m as i128),
        None => return None,
    };
    if min as i128 <= n && n <= max as i128 {
        Some(n as i64)
    } else {
        None
    }
}

/// A run of digits is worth at least as much as any of its prefixes.
proof fn lemma_digits_prefix(d: Seq<char>, k: int)
    requires
        0 <= k <= d.len(),
    ensures
        (forall|i: int| 0 <= i < d.len() ==> is_digit(#[trigger] d[i])) ==> digits_value(d.subrange(0, k))
            <= digits_value(d),
    decreases d.len() - k,
{
    if k < d.len() {
        lemma_digits_prefix(d, k + 1);
        if forall|i: int| 0 <= i < d.len() ==> is_digit(#[trigger] d[i]) {
            assert(d.subrange(0, k + 1).drop_last() =~= d.subrange(0, k));
            lemma_digits_nonneg_prefix(d, k);
        }
    } else {
        assert(d.subrange(0, k) =~= d);
    }
}

proof fn lemma_digits_nonneg_prefix(d: Seq<char>, k: int)
    requires
        0 <= k <= d.len(),
        forall|i: int| 0 <= i < d.len() ==> is_digit(#[trigger] d[i]),
    ensures
        digits_value(d.subrange(0, k)) >= 0,
    decreases k,
{
    if k > 0 {
        assert(d.subrange(0, k).drop_last() =~= d.subrange(0, k - 1));
        lemma_digits_nonneg_prefix(d, k - 1);
    }
}

/// `true` or `false` from their text.
pub fn parse_bool(t: &str) -> (r: Option<bool>)
    ensures
        t@ == "true"@ ==> r == Some(true),
        t@ == "false"@ ==> r == Some(false),
        t@ != "true"@ && t@ != "false"@ ==> r is None,
{
    let c = chars_of(t);
    proof {
        reveal_strlit("true");
        reveal_strlit("false");
    }
    if c.len() == 4 && c[0] == 't' && c[1] == 'r' && c[2] == 'u' && c[3] == 'e' {
        proof {
            assert(t@ =~= "true"@);
        }
        return Some(true);
    }
    if c.len() == 5 && c[0] == 'f' && c[1] == 'a' && c[2] == 'l' && c[3] == 's' && c[4] == 'e' {
        proof {
            assert(t@ =~= "false"@);
        }
        return Some(false);
    }
    proof {
        if t@ == "true"@ {
            assert(c@[0] == 't' && c@[1] == 'r' && c@[2] == 'u' && c@[3] == 'e');
        }
        if t@ == "false"@ {
            assert(c@[0] == 'f' && c@[1] == 'a' && c@[2] == 'l' && c@[3] == 's' && c@[4] == 'e');
        }
    }
    None
}

impl FromIon<Value> for String {
    type Err = ();

    fn from_ion(value: &Value) -> Result<Self, Self::Err> {
        match value.as_string() {
            Some(s) => Ok(s.clone()),
            None => Err(()),
        }
    }
}

impl FromIon<Value> for Option<String> {
    type Err = ();

    fn from_ion(value: &Value) -> Result<Self, Self::Err> {
        match value.as_string() {
            Some(s) => if s.as_str().is_empty() {
                Ok(None)
            } else {
                Ok(Some(s.clone()))
            },
            None => Err(()),
        }
    }
}

impl FromIon<Value> for bool {
    type Err = ();

    fn from_ion(value: &Value) -> Result<Self, Self::Err> {
        match value.as_str() {
            Some(s) => match parse_bool(s) {
                Some(b) => Ok(b),
                None => Err(()),
            },
            None => Err(()),
        }
    }
}

impl FromIon<Value> for u32 {
    type Err = ();

    fn from_ion(value: &Value) -> Result<Self, Self::Err> {
        match value.as_str() {
            Some(s) => match parse_unsigned(s, 0xffff_ffff) {
                Some(n) => Ok(n as u32),
                None => Err(()),
            },
            None => Err(()),
        }
    }
}

impl FromIon<Value> for u64 {
    type Err = ();

    fn from_ion(value: &Value) -> Result<Self, Self::Err> {
        match value.as_str() {
            Some(s) => match parse_unsigned(s, 0xffff_ffff_ffff_ffff) {
                Some(n) => Ok(n),
                None => Err(()),
            },
            None => Err(()),
        }
    }
}

impl FromIon<Value> for u8 {
    type Err = ();

    fn from_ion(value: &Value) -> Result<Self, Self::Err> {
        match value.as_str() {
            Some(s) => match parse_unsigned(s, 0xff) {
                Some(n) => Ok(n as u8),
                None => Err(()),
            },
            None => Err(()),
        }
    }
}

impl FromIon<Value> for u16 {
    type Err = ();

    fn from_ion(value: &Value) -> Result<Self, Self::Err> {
        match value.as_str() {
            Some(s) => match parse_unsigned(s, 0xffff) {
                Some(n) => Ok(n as u16),
                None => Err(()),
            },
            None => Err(()),
        }
    }
}

impl FromIon<Value> for usize {
    type Err = ();

    fn from_ion(value: &Value) -> Result<Self, Self::Err> {
        match value.as_str() {
            Some(s) => match parse_unsigned(s, usize::MAX as u64) {
                Some(n) => Ok(n as usize),
                None => Err(()),
            },
            None => Err(()),
        }
    }
}

impl FromIon<Value> for i8 {
    type Err = ();

    fn from_ion(value: &Value) -> Result<Self, Self::Err> {
        match value.as_str() {
            Some(s) => match parse_signed(s, -0x80, 0x7f) {
                Some(n) => Ok(n as i8),
                None => Err(()),
            },
            None => Err(()),
        }
    }
}

impl FromIon<Value> for i16 {
    type Err = ();

    fn from_ion(value: &Value) -> Result<Self, Self::Err> {
        match value.as_str() {
            Some(s) => match parse_signed(s, -0x8000, 0x7fff) {
                Some(n) => Ok(n as i16),
                None => Err(()),
            },
            None => Err(()),
        }
    }
}

impl FromIon<Value> for i32 {
    type Err = ();

    fn from_ion(value: &Value) -> Result<Self, Self::Err> {
        match value.as_str() {
            Some(s) => match parse_signed(s, -0x8000_0000, 0x7fff_ffff) {
                Some(n) => Ok(n as i32),
                None => Err(()),
            },
            None => Err(()),
        }
    }
}

impl FromIon<Value> for i64 {
    type Err = ();

    fn from_ion(value: &Value) -> Result<Self, Self::Err> {
        match value.as_str() {
            Some(s) => match parse_signed(s, i64::MIN, i64::MAX) {
                Some(n) => Ok(n as i64),
                None => Err(()),
            },
            None => Err(()),
        }
    }
}

impl FromIon<Value> for isize {
    type Err = ();

    fn from_ion(value: &Value) -> Result<Self, Self::Err> {
        match value.as_str() {
            Some(s) => match parse_signed(s, isize::MIN as i64, isize::MAX as i64) {
                Some(n) => Ok(n as isize),
                None => Err(()),
            },
            None => Err(()),
        }
    }
}

impl Value {
    /// Converts the value with `F`'s `FromIon`.
    pub fn from_ion<F: FromIon<Value>>(&self) -> Result<F, F::Err> {
        F::from_ion(self)
    }
}

impl Section {
    /// Converts the section with `F`'s `FromIon`.
    pub fn parse<F: FromIon<Section>>(&self) -> Result<F, F::Err> {
        F::from_ion(self)
    }
}

} // verus!
