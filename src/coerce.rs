use vstd::prelude::*;
use vstd::utf8::encode_utf8;
use crate::value::{Value, ValueModel};

verus! {

/// The magnitude of the most negative `i64`.
pub const MAGNITUDE_BOUND: u64 = 9223372036854775808;

pub open spec fn is_digit(b: u8) -> bool {
    48 <= b <= 57
}

pub open spec fn all_digits(s: Seq<u8>) -> bool {
    forall|i: int| 0 <= i < s.len() ==> is_digit(#[trigger] s[i])
}

/// The number that a string of ASCII decimal digits denotes.
pub open spec fn digits_value(s: Seq<u8>) -> nat
    decreases s.len(),
{
    if s.len() == 0 {
        0
    } else {
        digits_value(s.drop_last()) * 10 + (s.last() - 48) as nat
    }
}

/// The signed base-10 integer that the bytes spell, if they spell one that
/// fits an `i64`: an optional leading `-`, then one or more digits.
pub open spec fn integer_of(b: Seq<u8>) -> Option<int> {
    if b.len() > 0 && b[0] == 45 {
        let d = b.subrange(1, b.len() as int);
        if d.len() > 0 && all_digits(d) && digits_value(d) <= MAGNITUDE_BOUND {
            Some(-digits_value(d))
        } else {
            None
        }
    } else if b.len() > 0 && all_digits(b) && digits_value(b) < MAGNITUDE_BOUND {
        Some(digits_value(b) as int)
    } else {
        None
    }
}

pub open spec fn true_bytes() -> Seq<u8> {
    seq![116u8, 114u8, 117u8, 101u8]
}

pub open spec fn false_bytes() -> Seq<u8> {
    seq![102u8, 97u8, 108u8, 115u8, 101u8]
}

/// The typed value of a scalar field's text: an integer if it parses as one,
/// then the booleans `true` and `false`, else the text itself.
pub open spec fn coerce_text(t: Seq<char>) -> ValueModel {
    let b = encode_utf8(t);
    match integer_of(b) {
        Some(n) => ValueModel::Integer(n),
        None => if b == true_bytes() {
            ValueModel::Boolean(true)
        } else if b == false_bytes() {
            ValueModel::Boolean(false)
        } else {
            ValueModel::Text(t)
        },
    }
}

/// Reads the digits `b[start..]`; `None` if there are none, one is not a
/// digit, or their value exceeds `MAGNITUDE_BOUND`.
fn parse_magnitude(b: &[u8], start: usize) -> (r: Option<u64>)
    requires
        start <= b@.len(),
    ensures
        ({
            let d = b@.subrange(start as int, b@.len() as int);
            &&& r is Some <==> (d.len() > 0 && all_digits(d) && digits_value(d) <= MAGNITUDE_BOUND)
            &&& r matches Some(v) ==> v as nat == digits_value(d)
        }),
{
    if start == b.len() {
        return None;
    }
    let mut acc: u64 = 0;
    let mut big: bool = false;
    let mut i: usize = start;
    while i < b.len()
        invariant
            start <= i <= b@.len(),
            !big ==> acc as nat == digits_value(b@.subrange(start as int, i as int)),
            !big ==> acc <= MAGNITUDE_BOUND,
            big ==> digits_value(b@.subrange(start as int, i as int)) > MAGNITUDE_BOUND,
            all_digits(b@.subrange(start as int, i as int)),
        decreases b@.len() - i,
    {
        let c = b[i];
        if c < 48 || c > 57 {
            assert(!all_digits(b@.subrange(start as int, b@.len() as int))) by {
                assert(b@.subrange(start as int, b@.len() as int)[i - start] == c);
            }
            return None;
        }
        let ghost prev = b@.subrange(start as int, i as int);
        let ghost next = b@.subrange(start as int, i + 1);
        assert(next.drop_last() =~= prev);
        assert(next.last() == c);
        assert(all_digits(next)) by {
            assert forall|j: int| 0 <= j < next.len() implies is_digit(#[trigger] next[j]) by {
                if j < prev.len() {
                    assert(next[j] == prev[j]);
                }
            }
        }
        let d = (c - 48) as u64;
        if !big {
            if acc > 922337203685477580 {
                big = true;
            } else {
                acc = acc * 10 + d;
                if acc > MAGNITUDE_BOUND {
                    big = true;
                }
            }
        }
        i = i + 1;
    }
    assert(b@.subrange(start as int, i as int) =~= b@.subrange(start as int, b@.len() as int));
    if big {
        None
    } else {
        Some(acc)
    }
}

/// Parses a signed base-10 integer: an optional `-`, then digits only.
pub fn parse_integer(b: &[u8]) -> (r: Option<i64>)
    ensures
        match integer_of(b@) {
            Some(n) => r == Some(n as i64) && r.unwrap() as int == n,
            None => r is None,
        },
{
    if b.len() > 0 && b[0] == 45 {
        match parse_magnitude(b, 1) {
            Some(v) => {
                if v == MAGNITUDE_BOUND {
                    Some(-9223372036854775807i64 - 1)
                } else {
                    Some(-(v as i64))
                }
            },
            None => None,
        }
    } else {
        if b.len() == 0 {
            return None;
        }
        assert(b@.subrange(0, b@.len() as int) =~= b@);
        match parse_magnitude(b, 0) {
            Some(v) => {
                if v == MAGNITUDE_BOUND {
                    None
                } else {
                    Some(v as i64)
                }
            },
            None => None,
        }
    }
}

fn is_literal(b: &[u8], lit: &[u8]) -> (r: bool)
    ensures
        r == (b@ == lit@),
{
    if b.len() != lit.len() {
        return false;
    }
    let mut i: usize = 0;
    while i < b.len()
        invariant
            b@.len() == lit@.len(),
            i <= b@.len(),
            forall|j: int| 0 <= j < i ==> b@[j] == lit@[j],
        decreases b@.len() - i,
    {
        if b[i] != lit[i] {
            return false;
        }
        i = i + 1;
    }
    assert(b@ =~= lit@);
    true
}

/// Converts a scalar field's text into a typed value: an integer first, then
/// the literals `true` and `false`, else the text verbatim.
pub fn coerce(raw: &str) -> (r: Value)
    ensures
        r@ == coerce_text(raw@),
{
    let b = raw.as_bytes();
    match parse_integer(b) {
        Some(n) => Value::Integer(n),
        None => {
            let t: [u8; 4] = [116u8, 114u8, 117u8, 101u8];
            let f: [u8; 5] = [102u8, 97u8, 108u8, 115u8, 101u8];
            assert(t@ =~= true_bytes());
            assert(f@ =~= false_bytes());
            if is_literal(b, &t) {
                Value::Boolean(true)
            } else if is_literal(b, &f) {
                Value::Boolean(false)
            } else {
                Value::Text(raw.to_owned())
            }
        },
    }
}

} // verus!
