//! Raw cell values: exact decimal numbers and text.
//!
//! A number is carried as a sign with big-endian digit sequences either side
//! of the decimal point, so the renderer works on the exact mathematical
//! value instead of a binary approximation.

use vstd::prelude::*;
use crate::digits::{digits_wf, seq_val};
use crate::text::{spec_find, str_chars, skip_chars, lemma_find_exact, lemma_find_none};

verus! {

/// Mathematical model of a [`Decimal`].
pub struct DecimalV {
    pub negative: bool,
    pub int_digits: Seq<u8>,
    pub frac_digits: Seq<u8>,
}

/// An exact decimal number: a sign and the digits before and after the
/// decimal point, most significant first.
#[derive(Debug, Clone, PartialEq)]
pub struct Decimal {
    pub negative: bool,
    pub int_digits: Vec<u8>,
    pub frac_digits: Vec<u8>,
}

impl View for Decimal {
    type V = DecimalV;

    open spec fn view(&self) -> DecimalV {
        DecimalV {
            negative: self.negative,
            int_digits: self.int_digits@,
            frac_digits: self.frac_digits@,
        }
    }
}

/// Well-formed decimal: every element a digit, at least one integer digit.
pub open spec fn decimal_wf(d: DecimalV) -> bool {
    &&& digits_wf(d.int_digits)
    &&& digits_wf(d.frac_digits)
    &&& d.int_digits.len() >= 1
}

/// The magnitude of a decimal with the point dropped: all digits read as one
/// integer, so the represented magnitude is this over `10^frac_digits.len()`.
pub open spec fn decimal_scaled(d: DecimalV) -> int {
    seq_val(d.int_digits + d.frac_digits)
}

/// A decimal is zero exactly when every digit is zero.
pub open spec fn decimal_is_zero(d: DecimalV) -> bool {
    decimal_scaled(d) == 0
}

/// Mathematical model of a [`Value`].
pub enum ValueV {
    Number(DecimalV),
    Text(Seq<char>),
}

/// A raw cell value: either a finite number or a text string.  These are
/// the only two classes the renderer distinguishes.
#[derive(Debug, Clone, PartialEq)]
pub enum Value {
    Number(Decimal),
    Text(String),
}

impl View for Value {
    type V = ValueV;

    open spec fn view(&self) -> ValueV {
        match self {
            Value::Number(d) => ValueV::Number(d@),
            Value::Text(s) => ValueV::Text(s@),
        }
    }
}

/// Well-formed value: a numeric value carries a well-formed decimal.
pub open spec fn value_wf(v: ValueV) -> bool {
    match v {
        ValueV::Number(d) => decimal_wf(d),
        ValueV::Text(_) => true,
    }
}

/// A decimal digit character.
pub open spec fn is_digit_char(c: char) -> bool {
    '0' <= c && c <= '9'
}

/// Every character is a decimal digit.
pub open spec fn all_digit_chars(s: Seq<char>) -> bool {
    forall|i: int| 0 <= i < s.len() ==> is_digit_char(s[i])
}

/// The digit values of a sequence of digit characters.
pub open spec fn digits_of_chars(s: Seq<char>) -> Seq<u8> {
    Seq::new(s.len(), |i: int| (s[i] as int - 48) as u8)
}

/// A decimal number body (no sign): digits with at most one point and at
/// least one digit.
pub open spec fn is_decimal_body(s: Seq<char>) -> bool {
    match spec_find(s, 0, '.') {
        None => s.len() >= 1 && all_digit_chars(s),
        Some(j) => s.len() >= 2 && all_digit_chars(s.take(j)) && all_digit_chars(s.skip(j + 1)),
    }
}

/// How a raw string reads as a value: an optional sign followed by a decimal
/// body is a number (an empty integer part reads as one `0` digit); anything
/// else is text.
pub open spec fn spec_from_raw(s: Seq<char>) -> ValueV {
    let has_sign = s.len() > 0 && (s[0] == '-' || s[0] == '+');
    let neg = s.len() > 0 && s[0] == '-';
    let body = if has_sign {
        s.skip(1)
    } else {
        s
    };
    if is_decimal_body(body) {
        let ipart = match spec_find(body, 0, '.') {
            Some(j) => body.take(j),
            None => body,
        };
        let fpart = match spec_find(body, 0, '.') {
            Some(j) => body.skip(j + 1),
            None => Seq::<char>::empty(),
        };
        ValueV::Number(
            DecimalV {
                negative: neg,
                int_digits: if ipart.len() == 0 {
                    seq![0u8]
                } else {
                    digits_of_chars(ipart)
                },
                frac_digits: digits_of_chars(fpart),
            },
        )
    } else {
        ValueV::Text(s)
    }
}

/// The position of the first `.` in `v`, if any, as the specification search
/// sees it.
fn find_dot(v: &Vec<char>) -> (r: Option<usize>)
    ensures
        match r {
            Some(j) => spec_find(v@, 0, '.') == Some(j as int),
            None => spec_find(v@, 0, '.') is None,
        },
{
    let mut i: usize = 0;
    while i < v.len()
        invariant
            0 <= i <= v@.len(),
            forall|m: int| 0 <= m < i ==> v@[m] != '.',
        decreases v@.len() - i,
    {
        if v[i] == '.' {
            proof {
                lemma_find_exact(v@, 0, '.', i as int);
            }
            return Some(i);
        }
        i += 1;
    }
    proof {
        lemma_find_none(v@, 0, '.');
    }
    None
}

/// Whether every element of `v` in `[from, to)` is a digit character.
fn all_digits_range(v: &Vec<char>, from: usize, to: usize) -> (r: bool)
    requires
        from <= to <= v@.len(),
    ensures
        r == all_digit_chars(v@.subrange(from as int, to as int)),
{
    let mut i: usize = from;
    while i < to
        invariant
            from <= i <= to <= v@.len(),
            forall|m: int| from <= m < i ==> is_digit_char(v@[m]),
        decreases to - i,
    {
        let c: char = v[i];
        if !('0' <= c && c <= '9') {
            proof {
                assert(!is_digit_char(v@.subrange(from as int, to as int)[i - from]));
            }
            return false;
        }
        i += 1;
    }
    proof {
        assert forall|m: int| 0 <= m < to - from implies is_digit_char(
            v@.subrange(from as int, to as int)[m],
        ) by {
            assert(v@.subrange(from as int, to as int)[m] == v@[m + from]);
        }
    }
    true
}

/// The digit values of the digit characters of `v` in `[from, to)`.
fn digits_from_chars(v: &Vec<char>, from: usize, to: usize) -> (r: Vec<u8>)
    requires
        from <= to <= v@.len(),
        all_digit_chars(v@.subrange(from as int, to as int)),
    ensures
        r@ == digits_of_chars(v@.subrange(from as int, to as int)),
        digits_wf(r@),
{
    let ghost part = v@.subrange(from as int, to as int);
    let mut r: Vec<u8> = Vec::new();
    let mut i: usize = from;
    while i < to
        invariant
            from <= i <= to <= v@.len(),
            part == v@.subrange(from as int, to as int),
            all_digit_chars(part),
            r@ =~= digits_of_chars(part).take(i - from),
        decreases to - i,
    {
        let c: char = v[i];
        proof {
            assert(part[i - from] == v@[i as int]);
            assert(is_digit_char(part[i - from]));
        }
        let d: u8 = ((c as u32) - 48) as u8;
        r.push(d);
        proof {
            assert(d as int == v@[i as int] as int - 48);
            assert(r@ =~= digits_of_chars(part).take(i + 1 - from));
        }
        i += 1;
    }
    proof {
        assert(r@ =~= digits_of_chars(part));
        assert forall|m: int| 0 <= m < r@.len() implies r@[m] < 10 by {
            assert(is_digit_char(part[m]));
        }
    }
    r
}

impl Value {
    /// Reads a raw cell string: a number when it is an optionally signed
    /// decimal numeral, text otherwise.
    pub fn from_raw(s: &str) -> (v: Value)
        ensures
            v@ == spec_from_raw(s@),
            value_wf(v@),
    {
        let chars = str_chars(s);
        let has_sign = chars.len() > 0 && (chars[0] == '-' || chars[0] == '+');
        let neg = chars.len() > 0 && chars[0] == '-';
        let start: usize = if has_sign {
            1
        } else {
            0
        };
        let body = skip_chars(&chars, start);
        proof {
            assert(body@ == if has_sign {
                s@.skip(1)
            } else {
                s@
            });
        }
        let dot = find_dot(&body);
        let is_num: bool = match dot {
            None => body.len() >= 1 && all_digits_range(&body, 0, body.len()),
            Some(j) => {
                proof {
                    crate::text::lemma_spec_find(body@, 0, '.');
                }
                let id = all_digits_range(&body, 0, j);
                let fd = all_digits_range(&body, j + 1, body.len());
                proof {
                    assert(body@.subrange(0, j as int) == body@.take(j as int));
                    assert(body@.subrange(j as int + 1, body@.len() as int) == body@.skip(
                        j as int + 1,
                    ));
                }
                body.len() >= 2 && id && fd
            },
        };
        if !is_num {
            proof {
                assert(spec_from_raw(s@) == ValueV::Text(s@));
            }
            return Value::Text(s.to_owned());
        }
        let (ints, fracs) = match dot {
            None => {
                let ints = digits_from_chars(&body, 0, body.len());
                proof {
                    assert(body@.subrange(0, body@.len() as int) == body@);
                    assert(digits_of_chars(Seq::<char>::empty()) =~= Seq::<u8>::empty());
                }
                let fracs: Vec<u8> = Vec::new();
                (ints, fracs)
            },
            Some(j) => {
                let ints = digits_from_chars(&body, 0, j);
                let fracs = digits_from_chars(&body, j + 1, body.len());
                proof {
                    assert(body@.subrange(0, j as int) == body@.take(j as int));
                    assert(body@.subrange(j as int + 1, body@.len() as int) == body@.skip(
                        j as int + 1,
                    ));
                }
                (ints, fracs)
            },
        };
        let ints = if ints.len() == 0 {
            let mut z: Vec<u8> = Vec::new();
            z.push(0);
            proof {
                assert(z@ =~= seq![0u8]);
            }
            z
        } else {
            ints
        };
        Value::Number(Decimal { negative: neg, int_digits: ints, frac_digits: fracs })
    }
}

} // verus!
