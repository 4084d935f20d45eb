//! The number renderer: rounding to a fixed count of decimal places with
//! half-away-from-zero semantics, thousands grouping of the integer part,
//! and the digit-string assembly.  Everything works on exact decimal digits.

use vstd::prelude::*;
use vstd::arithmetic::div_mod::lemma_fundamental_div_mod_converse;
use crate::digits::{
    canonical_digits, char_of_digits, char_of_digits_padded, digits_to_chars, digits_wf,
    inc_digits, lemma_char_of_digits_shape, lemma_digit_chars_canonical,
    lemma_digit_chars_padded, lemma_padded_len, lemma_pow10_pos, lemma_seq_val_append,
    lemma_seq_val_bounds, lemma_seq_val_single, lemma_seq_val_zeros, pow10, seq_val, u64_digits,
};
use crate::value::{Decimal, DecimalV, decimal_scaled, decimal_wf};

verus! {

/// A scaled magnitude rounded from `f` fractional digits to `k`, half away
/// from zero: unchanged but rescaled when `f <= k`; otherwise the dropped
/// digits round the kept ones up when they reach half a unit.
pub open spec fn round_scaled(n: int, f: nat, k: nat) -> int {
    if f <= k {
        n * pow10((k - f) as nat)
    } else {
        let d = pow10((f - k) as nat) as int;
        if n % d >= 5 * pow10((f - k - 1) as nat) {
            n / d + 1
        } else {
            n / d
        }
    }
}

/// Thousands grouping: a separator before each complete group of three
/// digits, counted from the right.
pub open spec fn grouped(s: Seq<char>) -> Seq<char>
    decreases s.len(),
{
    if s.len() <= 3 {
        s
    } else {
        grouped(s.take(s.len() - 3)) + seq![','] + s.skip(s.len() - 3)
    }
}

/// Grouping only inserts separators: removing every comma from the grouped
/// form gives back the original characters.
pub proof fn lemma_grouped_keeps_digits(s: Seq<char>)
    requires
        forall|i: int| 0 <= i < s.len() ==> s[i] != ',',
    ensures
        grouped(s).filter(|c: char| c != ',') == s,
    decreases s.len(),
{
    let pred = |c: char| c != ',';
    if s.len() <= 3 {
        lemma_filter_all(s, pred);
    } else {
        let a = s.take(s.len() - 3);
        let b = s.skip(s.len() - 3);
        assert(forall|i: int| 0 <= i < a.len() ==> a[i] != ',');
        lemma_grouped_keeps_digits(a);
        Seq::filter_distributes_over_add(grouped(a) + seq![','], b, pred);
        Seq::filter_distributes_over_add(grouped(a), seq![','], pred);
        lemma_filter_all(b, pred);
        assert(seq![','].filter(pred) =~= Seq::<char>::empty()) by {
            reveal_with_fuel(Seq::filter, 3);
            assert(seq![','].drop_last() =~= Seq::<char>::empty());
        }
        assert(grouped(a).filter(pred) + seq![','].filter(pred) =~= grouped(a).filter(pred));
        assert(a + b =~= s);
    }
}

/// Filtering keeps a sequence whose every element satisfies the predicate.
proof fn lemma_filter_all(s: Seq<char>, pred: spec_fn(char) -> bool)
    requires
        forall|i: int| 0 <= i < s.len() ==> pred(s[i]),
    ensures
        s.filter(pred) == s,
    decreases s.len(),
{
    reveal(Seq::filter);
    if s.len() > 0 {
        assert(forall|i: int| 0 <= i < s.len() - 1 ==> pred(s.drop_last()[i]));
        lemma_filter_all(s.drop_last(), pred);
        assert(s.filter(pred) =~= s.drop_last().filter(pred).push(s.last()));
        assert(s.drop_last().push(s.last()) =~= s);
    } else {
        assert(s.filter(pred) =~= s);
    }
}

/// Copies a digit vector.
fn copy_digits(v: &Vec<u8>) -> (r: Vec<u8>)
    ensures
        r@ == v@,
{
    let mut r: Vec<u8> = Vec::new();
    let mut i: usize = 0;
    while i < v.len()
        invariant
            0 <= i <= v@.len(),
            r@ =~= v@.take(i as int),
        decreases v@.len() - i,
    {
        r.push(v[i]);
        proof {
            assert(r@ =~= v@.take(i as int + 1));
        }
        i += 1;
    }
    proof {
        assert(r@ =~= v@);
    }
    r
}

/// Rounds `ints.fracs` to exactly `k` fractional digits, half away from
/// zero; the digit pair returned reads as the rounded scaled magnitude.
pub fn round_to_places(ints: &Vec<u8>, fracs: &Vec<u8>, k: usize) -> (r: (Vec<u8>, Vec<u8>))
    requires
        digits_wf(ints@),
        digits_wf(fracs@),
        ints@.len() >= 1,
    ensures
        digits_wf(r.0@),
        digits_wf(r.1@),
        r.0@.len() >= 1,
        r.1@.len() == k,
        seq_val(r.0@ + r.1@) == round_scaled(seq_val(ints@ + fracs@), fracs@.len(), k as nat),
{
    let f = fracs.len();
    if f <= k {
        let ri = copy_digits(ints);
        let mut rf = copy_digits(fracs);
        while rf.len() < k
            invariant
                fracs@.len() <= rf@.len() <= k,
                rf@ =~= fracs@ + Seq::<u8>::new((rf@.len() - fracs@.len()) as nat, |i: int| 0u8),
            decreases k - rf@.len(),
        {
            rf.push(0);
            proof {
                assert(rf@ =~= fracs@ + Seq::<u8>::new(
                    (rf@.len() - fracs@.len()) as nat,
                    |i: int| 0u8,
                ));
            }
        }
        proof {
            let z = Seq::<u8>::new((k - f) as nat, |i: int| 0u8);
            assert(ri@ + rf@ =~= (ints@ + fracs@) + z);
            lemma_seq_val_append(ints@ + fracs@, z);
            lemma_seq_val_zeros(z);
        }
        (ri, rf)
    } else {
        // keep the first k fractional digits, then decide on the next one
        let mut combined = copy_digits(ints);
        let mut i: usize = 0;
        while i < k
            invariant
                0 <= i <= k,
                k < fracs@.len(),
                digits_wf(fracs@),
                combined@ =~= ints@ + fracs@.take(i as int),
            decreases k - i,
        {
            combined.push(fracs[i]);
            proof {
                assert(combined@ =~= ints@ + fracs@.take(i as int + 1));
            }
            i += 1;
        }
        let ghost base = ints@ + fracs@.take(k as int);
        let ghost rest = fracs@.skip(k as int);
        let ghost m = (f - k) as nat;
        let ghost n = seq_val(ints@ + fracs@);
        proof {
            assert(digits_wf(base)) by {
                assert forall|x: int| 0 <= x < base.len() implies base[x] < 10 by {
                    if x < ints@.len() {
                        assert(base[x] == ints@[x]);
                    } else {
                        assert(base[x] == fracs@[x - ints@.len()]);
                    }
                }
            }
            assert(digits_wf(rest));
            assert((ints@ + fracs@) =~= base + rest);
            lemma_seq_val_append(base, rest);
            lemma_seq_val_bounds(rest);
            lemma_pow10_pos(m);
            assert(rest.len() == m);
            lemma_fundamental_div_mod_converse(n, pow10(m) as int, seq_val(base), seq_val(rest));
            assert(n / (pow10(m) as int) == seq_val(base));
            assert(n % (pow10(m) as int) == seq_val(rest));
            // the first dropped digit decides the rounding direction
            let fk = fracs@[k as int];
            let tail = fracs@.skip(k as int + 1);
            assert(rest =~= seq![fk] + tail);
            lemma_seq_val_append(seq![fk], tail);
            lemma_seq_val_single(fk);
            lemma_seq_val_bounds(tail);
            assert(tail.len() == m - 1);
            let p1 = pow10((m - 1) as nat) as int;
            assert(seq_val(rest) == fk * p1 + seq_val(tail));
            if fk >= 5 {
                assert(fk * p1 >= 5 * p1) by (nonlinear_arith)
                    requires fk >= 5, p1 >= 0;
            } else {
                assert(fk * p1 <= 4 * p1) by (nonlinear_arith)
                    requires fk <= 4, p1 >= 0;
            }
        }
        let decide: u8 = fracs[k];
        let rounded = if decide >= 5 {
            inc_digits(&combined)
        } else {
            combined
        };
        proof {
            assert(rounded@.len() >= ints@.len() + k);
        }
        let split_at = rounded.len() - k;
        let mut ri: Vec<u8> = Vec::new();
        let mut rf: Vec<u8> = Vec::new();
        let mut j: usize = 0;
        while j < split_at
            invariant
                0 <= j <= split_at <= rounded@.len(),
                ri@ =~= rounded@.take(j as int),
            decreases split_at - j,
        {
            ri.push(rounded[j]);
            proof {
                assert(ri@ =~= rounded@.take(j as int + 1));
            }
            j += 1;
        }
        let mut j: usize = split_at;
        while j < rounded.len()
            invariant
                split_at <= j <= rounded@.len(),
                rf@ =~= rounded@.subrange(split_at as int, j as int),
            decreases rounded@.len() - j,
        {
            rf.push(rounded[j]);
            proof {
                assert(rf@ =~= rounded@.subrange(split_at as int, j as int + 1));
            }
            j += 1;
        }
        proof {
            assert(ri@ + rf@ =~= rounded@);
        }
        (ri, rf)
    }
}

/// The rendered digit string of a decimal under a digit run asking for `k`
/// fractional places, grouped or not: the rounded integer part (grouped on
/// request), then, when `k > 0`, the point and exactly `k` fractional
/// digits.  No sign and no surrounding literals: section choice already
/// encodes sign semantics.
pub open spec fn spec_render_number(dec: DecimalV, k: nat, group: bool) -> Seq<char> {
    let r = round_scaled(decimal_scaled(dec), dec.frac_digits.len(), k);
    let ip = r / (pow10(k) as int);
    let fp = r % (pow10(k) as int);
    let ichars = if group {
        grouped(char_of_digits(ip))
    } else {
        char_of_digits(ip)
    };
    if k == 0 {
        ichars
    } else {
        ichars + seq!['.'] + char_of_digits_padded(fp, k)
    }
}

/// Without grouping no separator appears: the plain digit string of a
/// nonnegative value holds digit characters alone.
pub proof fn lemma_ungrouped_has_no_separator(n: int)
    requires
        n >= 0,
    ensures
        forall|i: int| 0 <= i < char_of_digits(n).len() ==> char_of_digits(n)[i] != ',',
{
    lemma_char_of_digits_shape(n);
    assert forall|i: int| 0 <= i < char_of_digits(n).len() implies char_of_digits(n)[i]
        != ',' by {
        assert('0' <= char_of_digits(n)[i] <= '9');
    }
}

/// Grouping never shortens: separators are only added.
pub proof fn lemma_grouped_len(s: Seq<char>)
    ensures
        grouped(s).len() >= s.len(),
    decreases s.len(),
{
    if s.len() > 3 {
        lemma_grouped_len(s.take(s.len() - 3));
    }
}

/// A rendered number asking for `k > 0` decimal places ends in a point and
/// exactly `k` digit characters, which read as the magnitude rounded to `k`
/// places, half away from zero.
pub proof fn lemma_decimal_places(dec: DecimalV, k: nat, group: bool)
    requires
        k > 0,
    ensures
        spec_render_number(dec, k, group).len() > k,
        spec_render_number(dec, k, group)[spec_render_number(dec, k, group).len() - k - 1] == '.',
        spec_render_number(dec, k, group).skip(
            spec_render_number(dec, k, group).len() - k,
        ) == char_of_digits_padded(
            round_scaled(decimal_scaled(dec), dec.frac_digits.len(), k) % (pow10(k) as int),
            k,
        ),
{
    let r = round_scaled(decimal_scaled(dec), dec.frac_digits.len(), k);
    let ip = r / (pow10(k) as int);
    let fp = r % (pow10(k) as int);
    let ichars = if group {
        grouped(char_of_digits(ip))
    } else {
        char_of_digits(ip)
    };
    let out = spec_render_number(dec, k, group);
    lemma_padded_len(fp, k);
    lemma_grouped_len(char_of_digits(ip));
    assert(char_of_digits(ip).len() >= 1);
    assert(ichars.len() >= 1);
    assert(out == ichars + seq!['.'] + char_of_digits_padded(fp, k));
    assert(out[ichars.len() as int] == '.');
    assert(out.skip(out.len() - k) =~= char_of_digits_padded(fp, k));
}

/// Groups digit characters in threes from the right.
pub fn group_digits(v: &Vec<char>) -> (r: Vec<char>)
    ensures
        r@ == grouped(v@),
{
    let n = v.len();
    if n <= 3 {
        let mut r: Vec<char> = Vec::new();
        let mut i: usize = 0;
        while i < n
            invariant
                0 <= i <= n,
                n == v@.len(),
                r@ =~= v@.take(i as int),
            decreases n - i,
        {
            r.push(v[i]);
            proof {
                assert(r@ =~= v@.take(i as int + 1));
            }
            i += 1;
        }
        proof {
            assert(r@ =~= v@);
        }
        return r;
    }
    let first = ((n - 1) % 3) + 1;
    let mut r: Vec<char> = Vec::new();
    let mut c: usize = 0;
    while c < first
        invariant
            0 <= c <= first,
            first <= 3,
            first <= n == v@.len(),
            r@ =~= v@.take(c as int),
        decreases first - c,
    {
        r.push(v[c]);
        proof {
            assert(r@ =~= v@.take(c as int + 1));
        }
        c += 1;
    }
    proof {
        assert(r@ =~= v@.take(first as int));
        assert(grouped(v@.take(first as int)) == v@.take(first as int));
    }
    while c < n
        invariant
            1 <= first <= c <= n == v@.len(),
            (n - c) % 3 == 0,
            r@ =~= grouped(v@.take(c as int)),
        decreases n - c,
    {
        proof {
            let t = v@.take(c as int + 3);
            assert(t.len() == c + 3);
            assert(t.take(c as int) =~= v@.take(c as int));
            assert(t.skip(c as int) =~= v@.subrange(c as int, c as int + 3));
            assert(grouped(t) == grouped(v@.take(c as int)) + seq![','] + v@.subrange(
                c as int,
                c as int + 3,
            ));
        }
        r.push(',');
        r.push(v[c]);
        r.push(v[c + 1]);
        r.push(v[c + 2]);
        proof {
            assert(r@ =~= grouped(v@.take(c as int)) + seq![','] + v@.subrange(
                c as int,
                c as int + 3,
            ));
        }
        c += 3;
    }
    proof {
        assert(v@.take(n as int) =~= v@);
    }
    r
}

/// Renders a nonnegative integer with thousands separators, `-` first when
/// it is negative.
pub fn format_int_with_thousands(num: i64) -> (r: String)
    ensures
        num >= 0 ==> r@ == grouped(char_of_digits(num as int)),
        num < 0 ==> r@ == seq!['-'] + grouped(char_of_digits(-(num as int))),
{
    let mag: u64 = if num < 0 {
        (-(num as i128)) as u64
    } else {
        num as u64
    };
    proof {
        assert(mag as int == if num < 0 {
            -(num as int)
        } else {
            num as int
        });
    }
    let digits = u64_digits(mag);
    let chars = digits_to_chars(&digits);
    proof {
        lemma_digit_chars_canonical(digits@);
    }
    let grouped_chars = group_digits(&chars);
    if num < 0 {
        let mut out: Vec<char> = Vec::new();
        out.push('-');
        let mut i: usize = 0;
        while i < grouped_chars.len()
            invariant
                0 <= i <= grouped_chars@.len(),
                out@ =~= seq!['-'] + grouped_chars@.take(i as int),
            decreases grouped_chars@.len() - i,
        {
            out.push(grouped_chars[i]);
            proof {
                assert(out@ =~= seq!['-'] + grouped_chars@.take(i as int + 1));
            }
            i += 1;
        }
        proof {
            assert(out@ =~= seq!['-'] + grouped_chars@);
        }
        crate::text::chars_to_string(&out)
    } else {
        crate::text::chars_to_string(&grouped_chars)
    }
}

/// Renders the digit string of a decimal: rounded to `k` places, grouped on
/// request.
pub fn render_number(dec: &Decimal, k: usize, group: bool) -> (r: Vec<char>)
    requires
        decimal_wf(dec@),
    ensures
        r@ == spec_render_number(dec@, k as nat, group),
{
    let (ri, rf) = round_to_places(&dec.int_digits, &dec.frac_digits, k);
    let ghost rv = round_scaled(decimal_scaled(dec@), dec@.frac_digits.len(), k as nat);
    proof {
        lemma_seq_val_append(ri@, rf@);
        lemma_seq_val_bounds(rf@);
        lemma_seq_val_bounds(ri@);
        lemma_pow10_pos(k as nat);
        lemma_fundamental_div_mod_converse(rv, pow10(k as nat) as int, seq_val(ri@), seq_val(rf@));
        assert(rv / (pow10(k as nat) as int) == seq_val(ri@));
        assert(rv % (pow10(k as nat) as int) == seq_val(rf@));
    }
    let ric = canonical_digits(&ri);
    let ichars = digits_to_chars(&ric);
    proof {
        lemma_digit_chars_canonical(ric@);
    }
    let mut out = if group {
        group_digits(&ichars)
    } else {
        ichars
    };
    if k > 0 {
        out.push('.');
        let ghost mid = out@;
        let fchars = digits_to_chars(&rf);
        proof {
            lemma_digit_chars_padded(rf@);
        }
        let mut i: usize = 0;
        while i < fchars.len()
            invariant
                0 <= i <= fchars@.len(),
                out@ =~= mid + fchars@.take(i as int),
            decreases fchars@.len() - i,
        {
            out.push(fchars[i]);
            proof {
                assert(out@ =~= mid + fchars@.take(i as int + 1));
            }
            i += 1;
        }
        proof {
            assert(out@ =~= mid + fchars@);
            let ichars_s = if group {
                grouped(char_of_digits(seq_val(ri@)))
            } else {
                char_of_digits(seq_val(ri@))
            };
            assert(mid =~= ichars_s + seq!['.']);
            assert(out@ =~= ichars_s + seq!['.'] + char_of_digits_padded(
                seq_val(rf@),
                k as nat,
            ));
        }
    }
    out
}

} // verus!
