//! Typed path arguments: their types, their values and the text parsers
//! that read them from a path segment.

use vstd::prelude::*;
use vstd::utf8::decode_utf8;

verus! {

/// The byte `+`.
pub const PLUS: u8 = 43;

/// The byte `0`.
pub const ZERO: u8 = 48;

/// The type of a typed path argument, which selects its text parser.
#[derive(Clone, Copy, Debug, PartialEq, Eq, Structural)]
pub enum ArgType {
    /// Any text, taken verbatim.
    Text,
    /// An unsigned 64-bit integer in decimal.
    Uint,
}

/// A parsed path argument.
#[derive(Clone, Debug, PartialEq, Eq)]
pub enum ArgValue {
    Text(String),
    Uint(u64),
}

/// What a parsed path argument holds.
pub enum ArgView {
    Text(Seq<char>),
    Uint(u64),
}

impl View for ArgValue {
    type V = ArgView;

    open spec fn view(&self) -> ArgView {
        match self {
            ArgValue::Text(s) => ArgView::Text(s@),
            ArgValue::Uint(n) => ArgView::Uint(*n),
        }
    }
}

/// The views of a list of optional arguments.
pub open spec fn args_view(v: Seq<Option<ArgValue>>) -> Seq<Option<ArgView>> {
    v.map_values(|a: Option<ArgValue>| opt_arg_view(a))
}

/// The view of one optional argument.
pub open spec fn opt_arg_view(a: Option<ArgValue>) -> Option<ArgView> {
    match a {
        Some(v) => Some(v@),
        None => None,
    }
}

pub open spec fn is_digit(c: u8) -> bool {
    ZERO <= c <= ZERO + 9
}

pub open spec fn all_digits(d: Seq<u8>) -> bool {
    forall|i: int| 0 <= i < d.len() ==> is_digit(#[trigger] d[i])
}

/// The number that a sequence of decimal digits writes.
pub open spec fn digits_value(d: Seq<u8>) -> nat
    decreases d.len(),
{
    if d.len() == 0 {
        0
    } else {
        digits_value(d.drop_last()) * 10 + (d.last() - ZERO) as nat
    }
}

/// The digits of an unsigned number's text: all of it, or what follows a
/// leading `+`.
pub open spec fn unsigned_digits(t: Seq<u8>) -> Seq<u8> {
    if t.len() > 0 && t[0] == PLUS {
        t.drop_first()
    } else {
        t
    }
}

/// The text parser of `ArgType::Uint`, which reads text as `u64::from_str`
/// does: an optional `+`, then at least one decimal digit, for a value that
/// fits in 64 bits.
pub open spec fn parse_uint(t: Seq<u8>) -> Option<u64> {
    let d = unsigned_digits(t);
    if d.len() > 0 && all_digits(d) && digits_value(d) <= u64::MAX {
        Some(digits_value(d) as u64)
    } else {
        None
    }
}

/// The text parser of an argument type, on the bytes of one segment.
pub open spec fn parse_arg(ty: ArgType, t: Seq<u8>) -> Option<ArgView> {
    match ty {
        ArgType::Text => Some(ArgView::Text(decode_utf8(t))),
        ArgType::Uint => match parse_uint(t) {
            Some(n) => Some(ArgView::Uint(n)),
            None => None,
        },
    }
}

/// The character of a decimal digit.
pub open spec fn digit_char(n: nat) -> char {
    ((n % 10) + 48) as char
}

/// The decimal text of a number, without sign or leading zeros.
pub open spec fn decimal_chars(n: nat) -> Seq<char>
    decreases n,
{
    if n < 10 {
        seq![digit_char(n)]
    } else {
        decimal_chars(n / 10).push(digit_char(n % 10))
    }
}

/// The text of an argument value, as a path writes it.
pub open spec fn arg_text(v: ArgView) -> Seq<char> {
    match v {
        ArgView::Text(s) => s,
        ArgView::Uint(n) => decimal_chars(n as nat),
    }
}

/// A prefix of digits writes at most the number that the whole writes.
pub proof fn lemma_digits_value_prefix(d: Seq<u8>, k: int)
    requires
        0 <= k <= d.len(),
        all_digits(d),
    ensures
        digits_value(d.subrange(0, k)) <= digits_value(d),
    decreases d.len(),
{
    if k < d.len() {
        let e = d.drop_last();
        assert(e.subrange(0, k) =~= d.subrange(0, k));
        lemma_digits_value_prefix(e, k);
    } else {
        assert(d.subrange(0, k) =~= d);
    }
}

/// Parses `b[start..end]` as an unsigned decimal number.
pub fn parse_uint_at(b: &[u8], start: usize, end: usize) -> (r: Option<u64>)
    requires
        start <= end <= b@.len(),
    ensures
        r == parse_uint(b@.subrange(start as int, end as int)),
{
    let ghost t = b@.subrange(start as int, end as int);
    let mut i: usize = start;
    if i < end && b[i] == PLUS {
        i = i + 1;
    }
    let ghost d = b@.subrange(i as int, end as int);
    assert(d =~= unsigned_digits(t));
    if i == end {
        return None;
    }
    let first = i;
    let mut j: usize = first;
    while j < end
        invariant
            first <= j <= end <= b@.len(),
            d == b@.subrange(first as int, end as int),
            d == unsigned_digits(t),
            t == b@.subrange(start as int, end as int),
            d.len() > 0,
            forall|k: int| first <= k < j ==> is_digit(#[trigger] b@[k]),
        decreases end - j,
    {
        if b[j] < ZERO || b[j] > ZERO + 9 {
            assert(d[j - first] == b@[j as int]);
            assert(!is_digit(d[j - first]));
            assert(!all_digits(d));
            return None;
        }
        j = j + 1;
    }
    assert(all_digits(d)) by {
        assert forall|k: int| 0 <= k < d.len() implies is_digit(#[trigger] d[k]) by {
            assert(d[k] == b@[first + k]);
        }
    }
    let mut value: u64 = 0;
    let mut j: usize = first;
    while j < end
        invariant
            first <= j <= end <= b@.len(),
            d == b@.subrange(first as int, end as int),
            d == unsigned_digits(t),
            t == b@.subrange(start as int, end as int),
            d.len() > 0,
            all_digits(d),
            value as nat == digits_value(b@.subrange(first as int, j as int)),
        decreases end - j,
    {
        let ghost p = b@.subrange(first as int, j as int);
        let ghost q = b@.subrange(first as int, j + 1);
        assert(q.drop_last() =~= p);
        assert(q.last() == b@[j as int]);
        assert(is_digit(d[j - first]));
        let digit: u64 = (b[j] - ZERO) as u64;
        if value > (u64::MAX - digit) / 10 {
            assert(digits_value(q) > u64::MAX) by (nonlinear_arith)
                requires
                    digits_value(q) == value as nat * 10 + digit as nat,
                    value > (u64::MAX - digit) / 10,
                    digit <= 9,
            ;
            proof {
                assert(q =~= d.subrange(0, j + 1 - first));
                lemma_digits_value_prefix(d, j + 1 - first);
                assert(digits_value(d) > u64::MAX);
            }
            return None;
        }
        assert(value * 10 + digit <= u64::MAX) by (nonlinear_arith)
            requires
                value <= (u64::MAX - digit) / 10,
                digit <= 9,
        ;
        value = value * 10 + digit;
        j = j + 1;
    }
    assert(b@.subrange(first as int, j as int) =~= d);
    Some(value)
}

/// Relies on `u64::to_string`, through its `Display` impl: the decimal
/// digits of `n`, without sign or leading zeros.
#[verifier::external_body]
pub(crate) fn uint_text(n: u64) -> (r: String)
    ensures
        r@ == decimal_chars(n as nat),
{
    n.to_string()
}

} // verus!
