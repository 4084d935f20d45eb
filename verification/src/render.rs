//! The section renderer: walks a section's tokens, emits literal text
//! verbatim, and hands the digit run to the number renderer.
//!
//! A section without digit placeholders is pure literal text and renders the
//! same way for every value.  A placeholder-bearing section renders only
//! numbers: its visible tokens split into a prefix, the contiguous digit
//! run, and a suffix; fill and directive tokens emit nothing wherever they
//! stand.

use vstd::prelude::*;
use crate::error::FormatError;
use crate::number::{render_number, spec_render_number};
use crate::text::chars_to_string;
use crate::token::{
    Section, Tok, Token, is_run_tok, lemma_toks_view_push, lemma_toks_view_shape, starts_run,
    toks_view,
};
use crate::value::{Value, ValueV, value_wf};

verus! {

/// Tokens that never emit anything: fill directives and bracketed
/// directives.
pub open spec fn is_skippable(t: Tok) -> bool {
    match t {
        Tok::Skip => true,
        Tok::Directive(_) => true,
        _ => false,
    }
}

/// A token kept by visibility filtering, as a sequence.
pub open spec fn keep_tok(t: Tok) -> Seq<Tok> {
    if is_skippable(t) {
        Seq::empty()
    } else {
        seq![t]
    }
}

/// The emitting tokens of a section, in order.
pub open spec fn visible(toks: Seq<Tok>) -> Seq<Tok>
    decreases toks.len(),
{
    if toks.len() == 0 {
        Seq::empty()
    } else {
        visible(toks.drop_last()) + keep_tok(toks.last())
    }
}

/// The characters a token contributes as literal text.
pub open spec fn lit_char_of(t: Tok) -> Seq<char> {
    match t {
        Tok::Literal(c) => seq![c],
        _ => Seq::empty(),
    }
}

/// The literal text of a token sequence: every literal token's character,
/// in order; all other tokens contribute nothing.
pub open spec fn literal_chars(toks: Seq<Tok>) -> Seq<char>
    decreases toks.len(),
{
    if toks.len() == 0 {
        Seq::empty()
    } else {
        literal_chars(toks.drop_last()) + lit_char_of(toks.last())
    }
}

/// Whether any token is a digit placeholder.
pub open spec fn has_placeholder(toks: Seq<Tok>) -> bool {
    exists|i: int| 0 <= i < toks.len() && toks[i] is DigitPlaceholder
}

/// The first position at or after `i` that opens a digit run (a placeholder
/// or the decimal point); the length when none does.
pub open spec fn run_start(toks: Seq<Tok>, i: int) -> int
    decreases toks.len() - i,
{
    if i < 0 || i >= toks.len() {
        toks.len() as int
    } else if starts_run(toks[i]) {
        i
    } else {
        run_start(toks, i + 1)
    }
}

/// The first position at or after `i` that no longer belongs to the digit
/// run; the length when the run reaches the end.
pub open spec fn run_end(toks: Seq<Tok>, i: int) -> int
    decreases toks.len() - i,
{
    if i < 0 || i >= toks.len() {
        toks.len() as int
    } else if !is_run_tok(toks[i]) {
        i
    } else {
        run_end(toks, i + 1)
    }
}

/// The count of digit placeholders standing after the first decimal point:
/// the decimal-place count of a digit run.
pub open spec fn count_dec(run: Seq<Tok>, seen: bool) -> nat
    decreases run.len(),
{
    if run.len() == 0 {
        0
    } else {
        match run[0] {
            Tok::DecimalPoint => count_dec(run.skip(1), true),
            Tok::DigitPlaceholder(_) => (if seen {
                1nat
            } else {
                0nat
            }) + count_dec(run.skip(1), seen),
            _ => count_dec(run.skip(1), seen),
        }
    }
}

/// Whether the run holds a thousands marker, which switches grouping on.
pub open spec fn has_marker(run: Seq<Tok>) -> bool {
    exists|i: int| 0 <= i < run.len() && run[i] is ThousandsMarker
}

/// What rendering a section against a value yields.
///
/// Without a digit placeholder the section is pure literal text, returned
/// for every value.  With placeholders, text is unformattable; a number
/// renders as prefix literals, the digit string of the run (rounded to the
/// run's decimal places, grouped when the run holds a marker), and suffix
/// literals.
pub open spec fn spec_render_section(toks: Seq<Tok>, v: ValueV) -> Result<Seq<char>, FormatError> {
    if !has_placeholder(toks) {
        Ok(literal_chars(toks))
    } else {
        match v {
            ValueV::Text(_) => Err(FormatError::Unformattable),
            ValueV::Number(d) => {
                let vis = visible(toks);
                let s = run_start(vis, 0);
                let e = run_end(vis, s);
                let run = vis.subrange(s, e);
                let k = count_dec(run, false);
                let g = has_marker(run);
                Ok(
                    literal_chars(vis.subrange(0, s)) + spec_render_number(d, k, g)
                        + literal_chars(vis.subrange(e, vis.len() as int)),
                )
            },
        }
    }
}

/// A position that opens a run, with none before it, is where the run
/// starts.
proof fn lemma_run_start_exact(toks: Seq<Tok>, from: int, j: int)
    requires
        0 <= from <= j <= toks.len(),
        j == toks.len() || starts_run(toks[j]),
        forall|m: int| from <= m < j ==> !starts_run(toks[m]),
    ensures
        run_start(toks, from) == j,
    decreases j - from,
{
    if from < j {
        lemma_run_start_exact(toks, from + 1, j);
    }
}

/// A position that leaves the run, with the run unbroken before it, is
/// where the run ends.
proof fn lemma_run_end_exact(toks: Seq<Tok>, from: int, j: int)
    requires
        0 <= from <= j <= toks.len(),
        j == toks.len() || !is_run_tok(toks[j]),
        forall|m: int| from <= m < j ==> is_run_tok(toks[m]),
    ensures
        run_end(toks, from) == j,
    decreases j - from,
{
    if from < j {
        lemma_run_end_exact(toks, from + 1, j);
    }
}

/// Whether a token opens a digit run.
fn starts_run_tok(t: &Token) -> (r: bool)
    ensures
        r == starts_run(t@),
{
    match t {
        Token::DigitPlaceholder(_) => true,
        Token::DecimalPoint => true,
        _ => false,
    }
}

/// Whether a token belongs to a digit run.
fn is_run_token(t: &Token) -> (r: bool)
    ensures
        r == is_run_tok(t@),
{
    match t {
        Token::DigitPlaceholder(_) => true,
        Token::DecimalPoint => true,
        Token::ThousandsMarker => true,
        _ => false,
    }
}

/// A copy of one token, equal in view.
fn clone_token(t: &Token) -> (r: Token)
    ensures
        r@ == t@,
{
    match t {
        Token::Literal(c) => Token::Literal(*c),
        Token::DigitPlaceholder(k) => Token::DigitPlaceholder(*k),
        Token::DecimalPoint => Token::DecimalPoint,
        Token::ThousandsMarker => Token::ThousandsMarker,
        Token::Skip => Token::Skip,
        Token::Directive(s) => Token::Directive(s.clone()),
    }
}

/// Whether any token of the vector is a digit placeholder.
fn scan_placeholder(tokens: &Vec<Token>) -> (r: bool)
    ensures
        r == has_placeholder(toks_view(tokens@)),
{
    broadcast use lemma_toks_view_shape;

    let ghost tv = toks_view(tokens@);
    let mut i: usize = 0;
    while i < tokens.len()
        invariant
            0 <= i <= tokens@.len(),
            tv == toks_view(tokens@),
            tv.len() == tokens@.len(),
            forall|m: int| 0 <= m < i ==> !(tv[m] is DigitPlaceholder),
        decreases tokens@.len() - i,
    {
        broadcast use lemma_toks_view_shape;

        let found = match &tokens[i] {
            Token::DigitPlaceholder(_) => true,
            _ => false,
        };
        if found {
            proof {
                assert(tv[i as int] is DigitPlaceholder);
            }
            return true;
        }
        i += 1;
    }
    false
}

/// The literal text of the tokens in `[from, to)`.
fn literal_chars_range(tokens: &Vec<Token>, from: usize, to: usize) -> (r: Vec<char>)
    requires
        from <= to <= tokens@.len(),
    ensures
        r@ == literal_chars(toks_view(tokens@).subrange(from as int, to as int)),
{
    broadcast use lemma_toks_view_shape;

    let ghost tv = toks_view(tokens@);
    let ghost part = tv.subrange(from as int, to as int);
    let mut r: Vec<char> = Vec::new();
    let mut i: usize = from;
    proof {
        assert(part.subrange(0, 0) =~= Seq::<Tok>::empty());
    }
    while i < to
        invariant
            from <= i <= to <= tokens@.len(),
            tv == toks_view(tokens@),
            tv.len() == tokens@.len(),
            part == tv.subrange(from as int, to as int),
            r@ =~= literal_chars(part.subrange(0, i - from)),
        decreases to - i,
    {
        broadcast use lemma_toks_view_shape;

        proof {
            let sub = part.subrange(0, i - from + 1);
            assert(sub.drop_last() =~= part.subrange(0, i - from));
            assert(sub.last() == tv[i as int]);
            assert(literal_chars(sub) == literal_chars(part.subrange(0, i - from)) + lit_char_of(
                tv[i as int],
            ));
        }
        match &tokens[i] {
            Token::Literal(c) => {
                r.push(*c);
                proof {
                    assert(lit_char_of(tv[i as int]) =~= seq![*c]);
                    assert(r@ =~= literal_chars(part.subrange(0, i - from + 1)));
                }
            },
            _ => {
                proof {
                    assert(lit_char_of(tv[i as int]) =~= Seq::<char>::empty());
                    assert(r@ =~= literal_chars(part.subrange(0, i - from + 1)));
                }
            },
        }
        i += 1;
    }
    proof {
        assert(part.subrange(0, to - from) =~= part);
    }
    r
}

/// The emitting tokens of the vector, in order.
fn compute_visible(tokens: &Vec<Token>) -> (r: Vec<Token>)
    ensures
        toks_view(r@) == visible(toks_view(tokens@)),
{
    broadcast use lemma_toks_view_shape;

    let ghost tv = toks_view(tokens@);
    let mut r: Vec<Token> = Vec::new();
    let mut i: usize = 0;
    proof {
        assert(tv.subrange(0, 0) =~= Seq::<Tok>::empty());
    }
    while i < tokens.len()
        invariant
            0 <= i <= tokens@.len(),
            tv == toks_view(tokens@),
            tv.len() == tokens@.len(),
            toks_view(r@) == visible(tv.subrange(0, i as int)),
        decreases tokens@.len() - i,
    {
        broadcast use lemma_toks_view_shape;

        proof {
            let sub = tv.subrange(0, i as int + 1);
            assert(sub.drop_last() =~= tv.subrange(0, i as int));
            assert(sub.last() == tv[i as int]);
            assert(visible(sub) == visible(tv.subrange(0, i as int)) + keep_tok(tv[i as int]));
        }
        let skip = match &tokens[i] {
            Token::Skip => true,
            Token::Directive(_) => true,
            _ => false,
        };
        if !skip {
            let ghost pre = r@;
            let t = clone_token(&tokens[i]);
            r.push(t);
            proof {
                lemma_toks_view_push(pre, t);
                assert(keep_tok(tv[i as int]) =~= seq![tv[i as int]]);
                assert(toks_view(r@) =~= visible(tv.subrange(0, i as int + 1)));
            }
        } else {
            proof {
                assert(keep_tok(tv[i as int]) =~= Seq::<Tok>::empty());
                assert(toks_view(r@) =~= visible(tv.subrange(0, i as int + 1)));
            }
        }
        i += 1;
    }
    proof {
        assert(tv.subrange(0, tv.len() as int) =~= tv);
    }
    r
}

/// The decimal-place count and grouping flag of the run `[from, to)`.
fn scan_run(tokens: &Vec<Token>, from: usize, to: usize) -> (r: (usize, bool))
    requires
        from <= to <= tokens@.len(),
    ensures
        r.0 == count_dec(toks_view(tokens@).subrange(from as int, to as int), false),
        r.1 == has_marker(toks_view(tokens@).subrange(from as int, to as int)),
{
    broadcast use lemma_toks_view_shape;

    let ghost tv = toks_view(tokens@);
    let ghost run = tv.subrange(from as int, to as int);
    let mut k: usize = 0;
    let mut seen: bool = false;
    let mut marker: bool = false;
    let mut i: usize = from;
    proof {
        assert(run.subrange(0, run.len() as int) =~= run);
    }
    while i < to
        invariant
            from <= i <= to <= tokens@.len(),
            tv == toks_view(tokens@),
            tv.len() == tokens@.len(),
            run == tv.subrange(from as int, to as int),
            k <= i - from,
            count_dec(run, false) == k + count_dec(run.subrange(i - from, run.len() as int), seen),
            marker == (exists|m: int| from <= m < i && tv[m] is ThousandsMarker),
        decreases to - i,
    {
        broadcast use lemma_toks_view_shape;

        proof {
            let rest = run.subrange(i - from, run.len() as int);
            assert(rest[0] == tv[i as int]);
            assert(rest.skip(1) =~= run.subrange(i - from + 1, run.len() as int));
        }
        match &tokens[i] {
            Token::DecimalPoint => {
                seen = true;
            },
            Token::DigitPlaceholder(_) => {
                if seen {
                    k = k + 1;
                }
            },
            Token::ThousandsMarker => {
                marker = true;
                proof {
                    assert(tv[i as int] is ThousandsMarker);
                }
            },
            _ => {},
        }
        i += 1;
    }
    proof {
        assert(run.subrange(to - from, run.len() as int) =~= Seq::<Tok>::empty());
        if marker {
            let m = choose|m: int| from <= m < to && tv[m] is ThousandsMarker;
            assert(run[m - from] is ThousandsMarker);
        } else {
            assert forall|m: int| 0 <= m < run.len() implies !(run[m] is ThousandsMarker) by {
                assert(run[m] == tv[m + from]);
            }
        }
    }
    (k, marker)
}

/// Renders one section against a value: the literal text alone when the
/// section has no digit placeholder; otherwise the prefix, the rendered
/// digit run, and the suffix for a number, and `Unformattable` for text.
pub fn render_section(section: &Section, value: &Value) -> (r: Result<String, FormatError>)
    requires
        value_wf(value@),
    ensures
        match r {
            Ok(out) => spec_render_section(section@, value@) == Ok::<_, FormatError>(out@),
            Err(e) => spec_render_section(section@, value@) == Err::<Seq<char>, _>(e),
        },
{
    broadcast use lemma_toks_view_shape;

    let has_ph = scan_placeholder(&section.tokens);
    if !has_ph {
        let lits = literal_chars_range(&section.tokens, 0, section.tokens.len());
        proof {
            assert(toks_view(section.tokens@).subrange(
                0,
                toks_view(section.tokens@).len() as int,
            ) =~= toks_view(section.tokens@));
        }
        return Ok(chars_to_string(&lits));
    }
    match value {
        Value::Text(_) => Err(FormatError::Unformattable),
        Value::Number(d) => {
            let vis = compute_visible(&section.tokens);
            let ghost vv = toks_view(vis@);
            let n = vis.len();
            let mut s_idx: usize = 0;
            while s_idx < n && !starts_run_tok(&vis[s_idx])
                invariant
                    0 <= s_idx <= n,
                    n == vis@.len(),
                    vv == toks_view(vis@),
                    vv.len() == vis@.len(),
                    forall|m: int| 0 <= m < s_idx ==> !starts_run(vv[m]),
                decreases n - s_idx,
            {
                broadcast use lemma_toks_view_shape;

                s_idx += 1;
            }
            proof {
                lemma_run_start_exact(vv, 0, s_idx as int);
            }
            let mut e_idx: usize = s_idx;
            while e_idx < n && is_run_token(&vis[e_idx])
                invariant
                    s_idx <= e_idx <= n,
                    n == vis@.len(),
                    vv == toks_view(vis@),
                    vv.len() == vis@.len(),
                    forall|m: int| s_idx <= m < e_idx ==> is_run_tok(vv[m]),
                decreases n - e_idx,
            {
                broadcast use lemma_toks_view_shape;

                e_idx += 1;
            }
            proof {
                lemma_run_end_exact(vv, s_idx as int, e_idx as int);
            }
            let (k, g) = scan_run(&vis, s_idx, e_idx);
            let digits = render_number(d, k, g);
            let prefix = literal_chars_range(&vis, 0, s_idx);
            let suffix = literal_chars_range(&vis, e_idx, n);
            let mut out = prefix;
            let ghost p0 = out@;
            let mut i: usize = 0;
            while i < digits.len()
                invariant
                    0 <= i <= digits@.len(),
                    out@ =~= p0 + digits@.take(i as int),
                decreases digits@.len() - i,
            {
                out.push(digits[i]);
                proof {
                    assert(out@ =~= p0 + digits@.take(i as int + 1));
                }
                i += 1;
            }
            proof {
                assert(out@ =~= p0 + digits@);
            }
            let ghost p1 = out@;
            let mut i: usize = 0;
            while i < suffix.len()
                invariant
                    0 <= i <= suffix@.len(),
                    out@ =~= p1 + suffix@.take(i as int),
                decreases suffix@.len() - i,
            {
                out.push(suffix[i]);
                proof {
                    assert(out@ =~= p1 + suffix@.take(i as int + 1));
                }
                i += 1;
            }
            proof {
                assert(out@ =~= p1 + suffix@);
                assert(out@ =~= (literal_chars(vv.subrange(0, s_idx as int)) + digits@)
                    + literal_chars(vv.subrange(e_idx as int, vv.len() as int)));
            }
            Ok(chars_to_string(&out))
        },
    }
}

} // verus!
