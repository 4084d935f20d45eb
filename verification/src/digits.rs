//! Exact base-10 digit arithmetic.
//!
//! Numbers travel through the renderer as big-endian digit sequences.  This
//! module gives their mathematical value ([`seq_val`]), the decimal powers
//! ([`pow10`]), the character rendering of a value ([`char_of_digits`]), and
//! the verified executable helpers the renderer is built from: increment
//! with carry, canonicalization, and digit-to-character conversion.

use vstd::prelude::*;
use vstd::arithmetic::div_mod::lemma_fundamental_div_mod_converse;

verus! {

/// `10^e`.
pub open spec fn pow10(e: nat) -> nat
    decreases e,
{
    if e == 0 {
        1
    } else {
        10 * pow10((e - 1) as nat)
    }
}

/// Every element is a decimal digit.
pub open spec fn digits_wf(s: Seq<u8>) -> bool {
    forall|i: int| 0 <= i < s.len() ==> s[i] < 10
}

/// The value of a big-endian digit sequence.
pub open spec fn seq_val(s: Seq<u8>) -> int
    decreases s.len(),
{
    if s.len() == 0 {
        0
    } else {
        seq_val(s.drop_last()) * 10 + s.last()
    }
}

/// The character for one digit value.
pub open spec fn digit_to_char(d: int) -> char {
    (48 + d) as char
}

/// The digit characters of each element of a digit sequence.
pub open spec fn digit_chars_of(s: Seq<u8>) -> Seq<char> {
    Seq::new(s.len(), |i: int| digit_to_char(s[i] as int))
}

/// The shortest character rendering of a nonnegative value: no leading
/// zeros, and a single `0` for zero itself.
pub open spec fn char_of_digits(n: int) -> Seq<char>
    decreases n,
{
    if n < 10 {
        seq![digit_to_char(n)]
    } else {
        char_of_digits(n / 10).push(digit_to_char(n % 10))
    }
}

/// The fixed-width character rendering of `n` modulo `10^w`: exactly `w`
/// digit characters, leading zeros kept.
pub open spec fn char_of_digits_padded(n: int, w: nat) -> Seq<char>
    decreases w,
{
    if w == 0 {
        Seq::empty()
    } else {
        char_of_digits_padded(n / 10, (w - 1) as nat).push(digit_to_char(n % 10))
    }
}

pub proof fn lemma_pow10_pos(e: nat)
    ensures
        pow10(e) >= 1,
    decreases e,
{
    if e > 0 {
        lemma_pow10_pos((e - 1) as nat);
    }
}

/// The value of a one-digit sequence is the digit.
pub proof fn lemma_seq_val_single(d: u8)
    ensures
        seq_val(seq![d]) == d,
{
    reveal_with_fuel(seq_val, 2);
    assert(seq![d].drop_last() =~= Seq::<u8>::empty());
    assert(seq![d].last() == d);
}

/// A digit sequence's value is nonnegative and below `10^len`.
pub proof fn lemma_seq_val_bounds(s: Seq<u8>)
    requires
        digits_wf(s),
    ensures
        0 <= seq_val(s) < pow10(s.len()),
    decreases s.len(),
{
    if s.len() > 0 {
        assert(digits_wf(s.drop_last()));
        lemma_seq_val_bounds(s.drop_last());
        let v = seq_val(s.drop_last());
        let p = pow10((s.len() - 1) as nat);
        assert(v <= p - 1);
        assert(pow10(s.len()) == 10 * p);
    }
}

/// Concatenation: the left part is scaled by `10^len` of the right part.
pub proof fn lemma_seq_val_append(a: Seq<u8>, b: Seq<u8>)
    ensures
        seq_val(a + b) == seq_val(a) * pow10(b.len()) + seq_val(b),
    decreases b.len(),
{
    if b.len() == 0 {
        assert(a + b =~= a);
        assert(seq_val(a) * pow10(0) == seq_val(a) * 1);
    } else {
        lemma_seq_val_append(a, b.drop_last());
        assert((a + b).drop_last() =~= a + b.drop_last());
        assert((a + b).last() == b.last());
        let va = seq_val(a);
        let vb = seq_val(b.drop_last());
        let p = pow10((b.len() - 1) as nat);
        assert(seq_val(a + b) == (va * p + vb) * 10 + b.last());
        assert((va * p + vb) * 10 == va * (10 * p) + vb * 10) by (nonlinear_arith);
        assert(pow10(b.len()) == 10 * p);
        assert(va * pow10(b.len()) == va * (10 * p)) by (nonlinear_arith)
            requires pow10(b.len()) == 10 * p;
    }
}

/// An all-zero digit sequence has value zero.
pub proof fn lemma_seq_val_zeros(s: Seq<u8>)
    requires
        forall|i: int| 0 <= i < s.len() ==> s[i] == 0,
    ensures
        seq_val(s) == 0,
    decreases s.len(),
{
    if s.len() > 0 {
        lemma_seq_val_zeros(s.drop_last());
    }
}

/// An all-nine digit sequence has value `10^len - 1`.
pub proof fn lemma_seq_val_nines(s: Seq<u8>)
    requires
        forall|i: int| 0 <= i < s.len() ==> s[i] == 9,
    ensures
        seq_val(s) == pow10(s.len()) - 1,
    decreases s.len(),
{
    if s.len() > 0 {
        lemma_seq_val_nines(s.drop_last());
        assert(pow10(s.len()) == 10 * pow10((s.len() - 1) as nat));
    }
}

/// A digit sequence is all zero exactly when its value is zero.
pub proof fn lemma_seq_val_zero_iff(s: Seq<u8>)
    requires
        digits_wf(s),
    ensures
        seq_val(s) == 0 <==> (forall|i: int| 0 <= i < s.len() ==> s[i] == 0),
    decreases s.len(),
{
    if s.len() > 0 {
        assert(digits_wf(s.drop_last()));
        lemma_seq_val_zero_iff(s.drop_last());
        lemma_seq_val_bounds(s.drop_last());
        if seq_val(s) == 0 {
            assert(seq_val(s.drop_last()) == 0);
            assert(s.last() == 0);
            assert forall|i: int| 0 <= i < s.len() implies s[i] == 0 by {
                if i < s.len() - 1 {
                    assert(s[i] == s.drop_last()[i]);
                } else {
                    assert(s[i] == s.last());
                }
            }
        } else {
            if forall|i: int| 0 <= i < s.len() ==> s[i] == 0 {
                lemma_seq_val_zeros(s);
            }
        }
    }
}

/// A canonical digit sequence (nonzero leading digit, or a lone digit) maps
/// to the shortest character rendering of its value.
pub proof fn lemma_digit_chars_canonical(s: Seq<u8>)
    requires
        digits_wf(s),
        s.len() >= 1,
        s[0] != 0 || s.len() == 1,
    ensures
        digit_chars_of(s) == char_of_digits(seq_val(s)),
    decreases s.len(),
{
    let n = seq_val(s);
    lemma_seq_val_bounds(s);
    if s.len() == 1 {
        reveal_with_fuel(seq_val, 2);
        assert(s.drop_last() =~= Seq::<u8>::empty());
        assert(n == s[0]);
        assert(digit_chars_of(s) =~= char_of_digits(n));
    } else {
        let a = s.drop_last();
        assert(digits_wf(a));
        assert(a[0] == s[0]);
        lemma_digit_chars_canonical(a);
        lemma_seq_val_bounds(a);
        let va = seq_val(a);
        assert(va >= 1) by {
            lemma_seq_val_zero_iff(a);
        }
        assert(n == va * 10 + s.last());
        assert(n >= 10);
        lemma_fundamental_div_mod_converse(n, 10, va, s.last() as int);
        assert(n / 10 == va);
        assert(n % 10 == s.last());
        assert(digit_chars_of(s) =~= digit_chars_of(a).push(digit_to_char(s.last() as int)));
    }
}

/// Any digit sequence maps to the fixed-width rendering of its value at its
/// own length.
pub proof fn lemma_digit_chars_padded(s: Seq<u8>)
    requires
        digits_wf(s),
    ensures
        digit_chars_of(s) == char_of_digits_padded(seq_val(s), s.len()),
    decreases s.len(),
{
    let n = seq_val(s);
    if s.len() == 0 {
        assert(digit_chars_of(s) =~= char_of_digits_padded(n, 0));
    } else {
        let a = s.drop_last();
        assert(digits_wf(a));
        lemma_digit_chars_padded(a);
        lemma_seq_val_bounds(a);
        let va = seq_val(a);
        assert(n == va * 10 + s.last());
        lemma_fundamental_div_mod_converse(n, 10, va, s.last() as int);
        assert(digit_chars_of(s) =~= digit_chars_of(a).push(digit_to_char(s.last() as int)));
    }
}

/// The fixed-width rendering has exactly the requested width.
pub proof fn lemma_padded_len(n: int, w: nat)
    ensures
        char_of_digits_padded(n, w).len() == w,
    decreases w,
{
    if w > 0 {
        lemma_padded_len(n / 10, (w - 1) as nat);
    }
}

/// The shortest rendering is nonempty and all digit characters.
pub proof fn lemma_char_of_digits_shape(n: int)
    requires
        n >= 0,
    ensures
        char_of_digits(n).len() >= 1,
        forall|i: int|
            0 <= i < char_of_digits(n).len() ==> '0' <= #[trigger] char_of_digits(n)[i] <= '9',
    decreases n,
{
    if n >= 10 {
        lemma_char_of_digits_shape(n / 10);
        assert(0 <= n % 10 < 10);
    }
}

/// The big-endian digits of `n`: `[n]` below ten, else the digits of
/// `n / 10` followed by the last digit.
pub fn u64_digits(n: u64) -> (v: Vec<u8>)
    ensures
        digits_wf(v@),
        v@.len() >= 1,
        v@[0] != 0 || v@.len() == 1,
        seq_val(v@) == n as int,
    decreases n,
{
    if n < 10 {
        let mut v: Vec<u8> = Vec::new();
        v.push(n as u8);
        proof {
            lemma_seq_val_single(n as u8);
            assert(v@ =~= seq![n as u8]);
        }
        v
    } else {
        let mut v = u64_digits(n / 10);
        let ghost pre = v@;
        let d: u8 = (n % 10) as u8;
        v.push(d);
        proof {
            assert(v@.drop_last() =~= pre);
            assert(v@.last() == d);
            assert(seq_val(v@) == seq_val(pre) * 10 + d);
            assert(n as int == (n / 10) as int * 10 + (n % 10) as int);
            // the leading digit of `pre` cannot be zero, because n / 10 >= 1
            if pre.len() == 1 {
                reveal_with_fuel(seq_val, 2);
                assert(pre.drop_last() =~= Seq::<u8>::empty());
                assert(seq_val(pre) == pre[0]);
            }
            assert(v@[0] == pre[0]);
        }
        v
    }
}

/// Drops leading zero digits, keeping at least one digit.
pub fn canonical_digits(v: &Vec<u8>) -> (r: Vec<u8>)
    requires
        digits_wf(v@),
        v@.len() >= 1,
    ensures
        digits_wf(r@),
        r@.len() >= 1,
        r@[0] != 0 || r@.len() == 1,
        seq_val(r@) == seq_val(v@),
{
    let mut i: usize = 0;
    while i < v.len() - 1 && v[i] == 0
        invariant
            v@.len() >= 1,
            0 <= i <= v@.len() - 1,
            forall|j: int| 0 <= j < i ==> v@[j] == 0,
        decreases v@.len() - i,
    {
        i += 1;
    }
    let mut r: Vec<u8> = Vec::new();
    let mut j: usize = i;
    while j < v.len()
        invariant
            i <= j <= v@.len(),
            r@ =~= v@.subrange(i as int, j as int),
        decreases v@.len() - j,
    {
        r.push(v[j]);
        j += 1;
    }
    proof {
        assert(r@ =~= v@.skip(i as int));
        assert(v@ =~= v@.take(i as int) + v@.skip(i as int));
        lemma_seq_val_append(v@.take(i as int), v@.skip(i as int));
        lemma_seq_val_zeros(v@.take(i as int));
        let z = seq_val(v@.take(i as int));
        assert(z * pow10(v@.skip(i as int).len()) == 0) by (nonlinear_arith)
            requires z == 0;
    }
    r
}

/// Adds one to a digit sequence, carrying; the result keeps the length or
/// grows by one leading `1`.
pub fn inc_digits(digits: &Vec<u8>) -> (r: Vec<u8>)
    requires
        digits_wf(digits@),
    ensures
        digits_wf(r@),
        seq_val(r@) == seq_val(digits@) + 1,
        r@.len() == digits@.len() || r@.len() == digits@.len() + 1,
{
    let ghost orig = digits@;
    let mut v: Vec<u8> = Vec::new();
    let mut c: usize = 0;
    while c < digits.len()
        invariant
            0 <= c <= digits@.len(),
            v@ =~= digits@.take(c as int),
        decreases digits@.len() - c,
    {
        v.push(digits[c]);
        c += 1;
    }
    proof {
        assert(v@ =~= orig);
    }
    let mut j: usize = v.len();
    while j > 0
        invariant
            digits_wf(orig),
            orig == digits@,
            v@.len() == orig.len(),
            0 <= j <= v@.len(),
            forall|i: int| 0 <= i < j ==> v@[i] == orig[i],
            forall|i: int| j <= i < v@.len() ==> orig[i] == 9 && v@[i] == 0,
        decreases j,
    {
        j -= 1;
        proof {
            assert(v@[j as int] == orig[j as int]);
            assert(orig[j as int] < 10);
        }
        let ghost prev = v@;
        if v[j] == 9 {
            v.set(j, 0);
            proof {
                assert forall|i: int| j <= i < v@.len() implies orig[i] == 9 && v@[i]
                    == 0 by {
                    if i == j {
                        assert(v@ == prev.update(j as int, 0u8));
                        assert(prev[i] == 9);
                        assert(orig[i] == prev[i]);
                        assert(v@[i] == 0);
                    } else {
                        assert(v@[i] == prev[i]);
                        assert(orig[i] == 9);
                        assert(prev[i] == 0);
                    }
                }
            }
        } else {
            let d: u8 = v[j];
            v.set(j, d + 1);
            proof {
                reveal_with_fuel(pow10, 2);
                let m = (orig.len() - 1 - j) as nat;
                let head = orig.take(j as int);
                let nines = orig.skip(j as int + 1);
                let zeros = Seq::<u8>::new(m, |i: int| 0u8);
                assert(orig =~= (head + seq![d]) + nines);
                let rhs = (head + seq![(d + 1) as u8]) + zeros;
                assert forall|i: int| 0 <= i < v@.len() implies v@[i] == rhs[i] by {
                    assert(v@ == prev.update(j as int, (d + 1) as u8));
                    if i < j {
                        assert(v@[i] == prev[i]);
                        assert(prev[i] == orig[i]);
                        assert(rhs[i] == head[i]);
                        assert(head[i] == orig[i]);
                    } else if i == j {
                        assert(v@[i] == (d + 1) as u8);
                        assert(rhs[i] == (d + 1) as u8);
                    } else {
                        assert(v@[i] == prev[i]);
                        assert(orig[i] == 9);
                        assert(prev[i] == 0);
                        assert(rhs[i] == zeros[i - j - 1]);
                        assert(zeros[i - j - 1] == 0);
                    }
                }
                assert(v@ =~= rhs);
                lemma_seq_val_append(head + seq![d], nines);
                lemma_seq_val_append(head, seq![d]);
                lemma_seq_val_append(head + seq![(d + 1) as u8], zeros);
                lemma_seq_val_append(head, seq![(d + 1) as u8]);
                lemma_seq_val_nines(nines);
                lemma_seq_val_zeros(zeros);
                lemma_seq_val_single(d);
                lemma_seq_val_single((d + 1) as u8);
                let h = seq_val(head);
                let p = pow10(m);
                assert(nines.len() == m);
                assert(zeros.len() == m);
                assert(pow10(1) == 10);
                assert(seq_val(orig) == (h * 10 + d) * p + (p - 1));
                assert(seq_val(v@) == (h * 10 + (d + 1)) * p);
                assert((h * 10 + d) * p + (p - 1) + 1 == (h * 10 + (d + 1)) * p)
                    by (nonlinear_arith);
                assert(digits_wf(v@));
            }
            return v;
        }
    }
    // every digit was nine: the result is a one followed by zeros
    let mut r: Vec<u8> = Vec::new();
    r.push(1);
    let mut k: usize = 0;
    while k < v.len()
        invariant
            r@.len() == k + 1,
            r@[0] == 1,
            forall|i: int| 1 <= i < r@.len() ==> r@[i] == 0,
            k <= v@.len(),
        decreases v@.len() - k,
    {
        r.push(0);
        k += 1;
    }
    proof {
        lemma_seq_val_nines(orig);
        assert(r@ =~= seq![1u8] + r@.skip(1));
        lemma_seq_val_append(seq![1u8], r@.skip(1));
        lemma_seq_val_zeros(r@.skip(1));
        lemma_seq_val_single(1u8);
        let p = pow10(orig.len());
        assert(r@.skip(1).len() == orig.len());
        assert(1 * p == p) by (nonlinear_arith);
    }
    r
}

/// The digit characters of a digit vector, one character per digit.
pub fn digits_to_chars(v: &Vec<u8>) -> (r: Vec<char>)
    requires
        digits_wf(v@),
    ensures
        r@ == digit_chars_of(v@),
{
    let mut r: Vec<char> = Vec::new();
    let mut i: usize = 0;
    while i < v.len()
        invariant
            digits_wf(v@),
            0 <= i <= v@.len(),
            r@ =~= digit_chars_of(v@).take(i as int),
        decreases v@.len() - i,
    {
        let c: char = (48 + v[i]) as char;
        proof {
            assert(c == digit_to_char(v@[i as int] as int));
        }
        r.push(c);
        proof {
            assert(r@ =~= digit_chars_of(v@).take(i as int + 1));
        }
        i += 1;
    }
    proof {
        assert(r@ =~= digit_chars_of(v@));
    }
    r
}

} // verus!
