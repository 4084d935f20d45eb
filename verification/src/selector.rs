//! Section selection: a value's sign class picks which section of a format
//! code governs its rendering.

use vstd::prelude::*;
use crate::digits::{digits_wf, lemma_seq_val_zero_iff, seq_val};
use crate::value::{Value, ValueV, decimal_is_zero, value_wf};

verus! {

/// The sign class of a value: positive, negative, zero, or text.
#[derive(Debug, Clone, Copy, PartialEq, Eq, Structural)]
pub enum ValueClass {
    Positive,
    Negative,
    Zero,
    Text,
}

/// The class of a value.  Numbers classify strictly: all digits zero is the
/// zero class whatever the sign; otherwise the sign decides.
pub open spec fn spec_class(v: ValueV) -> ValueClass {
    match v {
        ValueV::Text(_) => ValueClass::Text,
        ValueV::Number(d) => if decimal_is_zero(d) {
            ValueClass::Zero
        } else if d.negative {
            ValueClass::Negative
        } else {
            ValueClass::Positive
        },
    }
}

/// The section index a class selects, given how many sections the format
/// has: one section serves every class; two split negative from the rest;
/// three and four give zero its own section, and only a fourth section
/// receives text.  Any other count behaves as a single section.
pub open spec fn spec_select(count: nat, class: ValueClass) -> nat {
    if count == 2 {
        match class {
            ValueClass::Negative => 1,
            _ => 0,
        }
    } else if count == 3 || count == 4 {
        match class {
            ValueClass::Positive => 0,
            ValueClass::Negative => 1,
            ValueClass::Zero => 2,
            ValueClass::Text => if count == 4 {
                3
            } else {
                0
            },
        }
    } else {
        0
    }
}

/// Whether every digit is zero.
fn all_zero(v: &Vec<u8>) -> (r: bool)
    ensures
        r == (forall|i: int| 0 <= i < v@.len() ==> v@[i] == 0),
{
    let mut i: usize = 0;
    while i < v.len()
        invariant
            0 <= i <= v@.len(),
            forall|m: int| 0 <= m < i ==> v@[m] == 0,
        decreases v@.len() - i,
    {
        if v[i] != 0 {
            return false;
        }
        i += 1;
    }
    true
}

/// The sign class of a value.
pub fn classify(v: &Value) -> (c: ValueClass)
    requires
        value_wf(v@),
    ensures
        c == spec_class(v@),
{
    match v {
        Value::Text(_) => ValueClass::Text,
        Value::Number(d) => {
            let zi = all_zero(&d.int_digits);
            let zf = all_zero(&d.frac_digits);
            proof {
                let all = d.int_digits@ + d.frac_digits@;
                assert(digits_wf(all));
                lemma_seq_val_zero_iff(all);
                if zi && zf {
                    assert forall|i: int| 0 <= i < all.len() implies all[i] == 0 by {
                        if i < d.int_digits@.len() {
                            assert(all[i] == d.int_digits@[i]);
                        } else {
                            assert(all[i] == d.frac_digits@[i - d.int_digits@.len()]);
                        }
                    }
                } else {
                    if !zi {
                        let w = choose|i: int|
                            0 <= i < d.int_digits@.len() && d.int_digits@[i] != 0;
                        assert(all[w] != 0);
                    } else {
                        let w = choose|i: int|
                            0 <= i < d.frac_digits@.len() && d.frac_digits@[i] != 0;
                        assert(all[d.int_digits@.len() + w] != 0);
                    }
                }
            }
            if zi && zf {
                ValueClass::Zero
            } else if d.negative {
                ValueClass::Negative
            } else {
                ValueClass::Positive
            }
        },
    }
}

/// The index of the section that governs `class` among `count` sections.
pub fn select_section_index(count: usize, class: ValueClass) -> (idx: usize)
    ensures
        idx == spec_select(count as nat, class),
        count >= 1 ==> idx < count,
{
    if count == 2 {
        match class {
            ValueClass::Negative => 1,
            _ => 0,
        }
    } else if count == 3 || count == 4 {
        match class {
            ValueClass::Positive => 0,
            ValueClass::Negative => 1,
            ValueClass::Zero => 2,
            ValueClass::Text => if count == 4 {
                3
            } else {
                0
            },
        }
    } else {
        0
    }
}

} // verus!
